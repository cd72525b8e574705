//! The state of the application and the messages that change it.

pub mod map_data;

use crate::state::map_data::{Location, MapData, MapModel};
use crate::util::buffer::Buffer;
use vstd::prelude::*;

verus! {

/// The queue through which the widgets send their messages.
pub type Chan<C, P> = Buffer<Message<C, P>>;

/// What a widget asks of the state. `C` is the type of a colour and `P` that
/// of a place on the screen.
#[derive(Debug)]
pub enum Message<C, P> {
    /// Nothing.
    NoOp,
    /// Colour the chosen entry `to`.
    ChangeColor { to: C },
    /// Close the choice.
    Distracted,
    /// Give the cell at `loc` a new colour and open the choice at `pos`.
    AddColor { loc: Location, pos: P },
    /// Open the choice for the cell at `loc`, at `pos`.
    UpdateColor { loc: Location, pos: P },
    /// Take away the colour behind the cell at `loc`.
    DeleteColor { loc: Location },
}

impl<C: Copy, P: Copy> Copy for Message<C, P> {

}

impl<C: Copy, P: Copy> Clone for Message<C, P> {
    fn clone(&self) -> (copy: Self)
        ensures
            copy == *self,
    {
        *self
    }
}

impl<C, P> Default for Message<C, P> {
    fn default() -> (msg: Self)
        ensures
            msg is NoOp,
    {
        Message::NoOp
    }
}

/// Applies `msgs` one after the other, up to the first that cannot be
/// applied. Yields the map reached and that message, if there is one.
pub open spec fn run<C, P>(start: MapModel<C, P>, msgs: Seq<Message<C, P>>) -> (
    MapModel<C, P>,
    Option<Message<C, P>>,
)
    decreases msgs.len(),
{
    if msgs.len() == 0 {
        (start, None)
    } else if !start.accepts(msgs[0]) {
        (start, Some(msgs[0]))
    } else {
        run(start.step(msgs[0]), msgs.skip(1))
    }
}

/// The state of the application: its colour map.
pub struct State<C: Copy, P: Copy> {
    color_map: MapData<C, P>,
}

impl<C: Copy, P: Copy> View for State<C, P> {
    type V = MapModel<C, P>;

    closed spec fn view(&self) -> MapModel<C, P> {
        self.color_map@
    }
}

impl<C: Copy, P: Copy> State<C, P> {
    /// The state around a colour map.
    pub fn new(color_map: MapData<C, P>) -> (state: Self)
        ensures
            state@ == color_map@,
    {
        State { color_map }
    }

    /// Whether `msg` can be applied to the state as it is.
    pub fn accepts(&self, msg: &Message<C, P>) -> (ok: bool)
        ensures
            ok == self@.accepts(*msg),
    {
        match msg {
            Message::AddColor { loc, pos } => self.color_map.has_room(),
            Message::UpdateColor { loc, pos } => self.color_map.shows(*loc),
            Message::DeleteColor { loc } => self.color_map.shows(*loc),
            _ => true,
        }
    }

    /// Applies every message of `chan` in turn and empties `chan`. Stops at
    /// the first message that cannot be applied and returns it; the messages
    /// behind it are dropped.
    pub fn process_chan(&mut self, chan: &mut Chan<C, P>) -> (refused: Option<Message<C, P>>)
        ensures
            final(chan)@ == Seq::<Message<C, P>>::empty(),
            (final(self)@, refused) == run(old(self)@, old(chan)@),
    {
        let msgs = chan.items();
        assert(msgs@ =~= old(chan)@);
        assert(msgs@.skip(0) =~= msgs@);
        let mut i: usize = 0;
        while i < msgs.len()
            invariant
                i <= msgs@.len(),
                chan@ == Seq::<Message<C, P>>::empty(),
                msgs@ == old(chan)@,
                run(self@, msgs@.skip(i as int)) == run(old(self)@, msgs@),
            decreases msgs@.len() - i,
        {
            let msg = msgs[i];
            assert(msgs@.skip(i as int)[0] == msg);
            assert(msgs@.skip(i as int).skip(1) =~= msgs@.skip(i + 1));
            if !self.accepts(&msg) {
                return Some(msg);
            }
            self.process(msg);
            i += 1;
        }
        None
    }

    /// Applies one message.
    pub fn process(&mut self, msg: Message<C, P>)
        requires
            old(self)@.accepts(msg),
        ensures
            final(self)@ == old(self)@.step(msg),
    {
        match msg {
            Message::NoOp => (),
            Message::ChangeColor { to } => {
                self.color_map.update_color(to);
            },
            Message::Distracted => {
                self.color_map.distracted();
            },
            Message::AddColor { loc, pos } => {
                self.color_map.add_color(loc, pos);
            },
            Message::UpdateColor { loc, pos } => {
                self.color_map.start_change_color(loc, pos);
            },
            Message::DeleteColor { loc } => {
                self.color_map.delete_color(loc);
            },
        }
    }

    /// The colour map.
    pub fn color_map(&self) -> (map: &MapData<C, P>)
        ensures
            map@ == self@,
    {
        &self.color_map
    }
}

} // verus!
