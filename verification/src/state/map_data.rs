//! The colour map: which cell of the grid shows which colour, and which
//! colour is being chosen.

use crate::state::Message;
use crate::util::hex::{digit_str, hex_repr};
use std::collections::HashMap;
use vstd::prelude::*;
use vstd::string::StringExecFns;

verus! {

broadcast use vstd::std_specs::hash::group_hash_axioms;

/// Index of a colour in the map.
pub type Index = usize;

/// Lowercase hexadecimal text that names an [`Index`].
pub type IndexRepr = String;

/// Row and column of a cell.
pub type Location = (usize, usize);

/// Writes an index as lowercase hexadecimal.
pub fn to_repr(idx: Index) -> (repr: IndexRepr)
    ensures
        repr@ == hex_repr(idx as nat),
    decreases idx,
{
    if idx < 16 {
        digit_str(idx).to_owned()
    } else {
        let mut repr: String = to_repr(idx / 16);
        repr.append(digit_str(idx % 16));
        assert(repr@ =~= hex_repr(idx as nat));
        repr
    }
}

/// What a colour map holds. `C` is the type of a colour and `P` that of a
/// place on the screen; the map stores both and looks into neither.
pub struct MapModel<C, P> {
    /// Rows of the grid.
    pub rows: usize,
    /// Columns of the grid.
    pub cols: usize,
    /// The index shown in each cell that shows one.
    pub cells: Map<Location, Index>,
    /// The colour behind each index that has one.
    pub colors: Map<Index, C>,
    /// The index that the next new colour gets.
    pub next_color: Index,
    /// The colour of a new entry, and of a chosen index without a colour.
    pub blank: C,
    /// Whether a colour is being chosen.
    pub choosing: bool,
    /// Where the choice was opened.
    pub chosen_at: P,
    /// The index whose colour is being chosen.
    pub chosen: Index,
}

impl<C, P> MapModel<C, P> {
    /// The map at the start: two rows of three cells, three of them with a
    /// colour, nothing being chosen.
    pub open spec fn starting(first: C, second: C, third: C, blank: C, origin: P) -> Self {
        MapModel {
            rows: 2,
            cols: 3,
            cells: Map::<Location, Index>::empty().insert((0, 0), 0).insert((1, 0), 1).insert(
                (1, 1),
                2,
            ),
            colors: Map::<Index, C>::empty().insert(0, first).insert(1, second).insert(2, third),
            next_color: 3,
            blank,
            choosing: false,
            chosen_at: origin,
            chosen: 0,
        }
    }

    /// The colour shown in the cell at `loc`, if the cell shows an index and
    /// the index has a colour.
    pub open spec fn color_at(self, loc: Location) -> Option<C> {
        if self.cells.contains_key(loc) && self.colors.contains_key(self.cells[loc]) {
            Some(self.colors[self.cells[loc]])
        } else {
            None
        }
    }

    /// The colour being chosen; the blank colour where the chosen index has
    /// none.
    pub open spec fn active_color(self) -> C {
        if self.colors.contains_key(self.chosen) {
            self.colors[self.chosen]
        } else {
            self.blank
        }
    }

    /// The map with a choice opened at `pos` for the colour in the cell at
    /// `loc`.
    pub open spec fn start_change_color(self, loc: Location, pos: P) -> Self {
        MapModel { chosen: self.cells[loc], chosen_at: pos, choosing: true, ..self }
    }

    /// The map with a new blank colour in the cell at `loc` and a choice
    /// opened for it at `pos`.
    pub open spec fn add_color(self, loc: Location, pos: P) -> Self {
        MapModel {
            colors: self.colors.insert(self.next_color, self.blank),
            cells: self.cells.insert(loc, self.next_color),
            next_color: (self.next_color + 1) as usize,
            ..self
        }.start_change_color(loc, pos)
    }

    /// The map with the chosen index coloured `to`.
    pub open spec fn update_color(self, to: C) -> Self {
        MapModel { colors: self.colors.insert(self.chosen, to), ..self }
    }

    /// The map without the colour behind the cell at `loc`. The cell keeps
    /// its index.
    pub open spec fn delete_color(self, loc: Location) -> Self {
        MapModel { colors: self.colors.remove(self.cells[loc]), ..self }
    }

    /// The map with no choice open.
    pub open spec fn distracted(self) -> Self {
        MapModel { choosing: false, ..self }
    }

    /// Whether `msg` can be applied: a new colour needs a free index, and a
    /// message about a cell needs the cell to show an index.
    pub open spec fn accepts(self, msg: Message<C, P>) -> bool {
        match msg {
            Message::AddColor { loc, pos } => self.next_color < usize::MAX,
            Message::UpdateColor { loc, pos } => self.cells.contains_key(loc),
            Message::DeleteColor { loc } => self.cells.contains_key(loc),
            _ => true,
        }
    }

    /// The map after `msg` was applied.
    pub open spec fn step(self, msg: Message<C, P>) -> Self {
        match msg {
            Message::NoOp => self,
            Message::ChangeColor { to } => self.update_color(to),
            Message::Distracted => self.distracted(),
            Message::AddColor { loc, pos } => self.add_color(loc, pos),
            Message::UpdateColor { loc, pos } => self.start_change_color(loc, pos),
            Message::DeleteColor { loc } => self.delete_color(loc),
        }
    }
}

/// The key under which a cell is stored: its row in the upper 64 bits, its
/// column in the lower.
pub open spec fn cell_key(loc: Location) -> u128 {
    (loc.0 as u128 * 0x1_0000_0000_0000_0000 + loc.1 as u128) as u128
}

/// Computes [`cell_key`].
fn key_of(loc: Location) -> (key: u128)
    ensures
        key == cell_key(loc),
{
    loc.0 as u128 * 0x1_0000_0000_0000_0000 + loc.1 as u128
}

/// Different cells have different keys.
proof fn lemma_cell_key_is_injective(a: Location, b: Location)
    requires
        cell_key(a) == cell_key(b),
    ensures
        a == b,
{
}

/// The cells that a table of keys stands for.
spec fn cells_of(table: Map<u128, Index>) -> Map<Location, Index> {
    Map::new(|loc: Location| table.contains_key(cell_key(loc)), |loc: Location| table[cell_key(loc)])
}

/// Storing under the key of a cell is storing for that cell alone.
proof fn lemma_cells_of_insert(table: Map<u128, Index>, loc: Location, idx: Index)
    ensures
        cells_of(table.insert(cell_key(loc), idx)) == cells_of(table).insert(loc, idx),
{
    assert forall|other: Location| other != loc implies cell_key(other) != cell_key(loc) by {
        if cell_key(other) == cell_key(loc) {
            lemma_cell_key_is_injective(other, loc);
        }
    }
    assert(cells_of(table.insert(cell_key(loc), idx)) =~= cells_of(table).insert(loc, idx));
}

/// The colour map. Its view is the [`MapModel`] it stands for.
pub struct MapData<C: Copy, P: Copy> {
    rows: usize,
    cols: usize,
    map: HashMap<u128, Index>,
    colors: HashMap<Index, C>,
    next_color: Index,
    blank: C,
    choose_color_mode: bool,
    choose_color_pos: P,
    choose_color_idx: Index,
}

impl<C: Copy, P: Copy> View for MapData<C, P> {
    type V = MapModel<C, P>;

    closed spec fn view(&self) -> MapModel<C, P> {
        MapModel {
            rows: self.rows,
            cols: self.cols,
            cells: cells_of(self.map@),
            colors: self.colors@,
            next_color: self.next_color,
            blank: self.blank,
            choosing: self.choose_color_mode,
            chosen_at: self.choose_color_pos,
            chosen: self.choose_color_idx,
        }
    }
}

impl<C: Copy, P: Copy> MapData<C, P> {
    /// The map at the start, with the three colours it shows, the colour
    /// that new entries get, and the place where no choice was opened yet.
    pub fn starting(first: C, second: C, third: C, blank: C, origin: P) -> (data: Self)
        ensures
            data@ == MapModel::starting(first, second, third, blank, origin),
    {
        let mut map: HashMap<u128, Index> = HashMap::new();
        proof {
            assert(cells_of(map@) =~= Map::<Location, Index>::empty());
            lemma_cells_of_insert(map@, (0, 0), 0);
        }
        map.insert(key_of((0, 0)), 0);
        proof {
            lemma_cells_of_insert(map@, (1, 0), 1);
        }
        map.insert(key_of((1, 0)), 1);
        proof {
            lemma_cells_of_insert(map@, (1, 1), 2);
        }
        map.insert(key_of((1, 1)), 2);
        let mut colors: HashMap<Index, C> = HashMap::new();
        colors.insert(0, first);
        colors.insert(1, second);
        colors.insert(2, third);
        MapData {
            rows: 2,
            cols: 3,
            map,
            colors,
            next_color: 3,
            blank,
            choose_color_mode: false,
            choose_color_pos: origin,
            choose_color_idx: 0,
        }
    }

    /// Rows and columns of the grid.
    pub fn size(&self) -> (size: (usize, usize))
        ensures
            size == (self@.rows, self@.cols),
    {
        (self.rows, self.cols)
    }

    /// The index shown in the cell at `loc`, if there is one.
    fn index_of(&self, loc: Location) -> (idx: Option<Index>)
        ensures
            idx is Some <==> self@.cells.contains_key(loc),
            idx matches Some(i) ==> i == self@.cells[loc],
    {
        match self.map.get(&key_of(loc)) {
            Some(idx) => Some(*idx),
            None => None,
        }
    }

    /// Whether the cell at `loc` shows an index.
    pub fn shows(&self, loc: Location) -> (shown: bool)
        ensures
            shown == self@.cells.contains_key(loc),
    {
        self.index_of(loc).is_some()
    }

    /// Whether there is an index left for a new colour.
    pub fn has_room(&self) -> (room: bool)
        ensures
            room == (self@.next_color < usize::MAX),
    {
        self.next_color < usize::MAX
    }

    /// The text of the index shown in the cell at `loc`, if there is one.
    pub fn index_at(&self, loc: Location) -> (repr: Option<IndexRepr>)
        ensures
            repr is Some <==> self@.cells.contains_key(loc),
            repr matches Some(text) ==> text@ == hex_repr(self@.cells[loc] as nat),
    {
        match self.index_of(loc) {
            Some(idx) => Some(to_repr(idx)),
            None => None,
        }
    }

    /// The colour shown in the cell at `loc`, if there is one.
    pub fn color_at(&self, loc: Location) -> (color: Option<C>)
        ensures
            color == self@.color_at(loc),
    {
        match self.index_of(loc) {
            Some(idx) => match self.colors.get(&idx) {
                Some(color) => Some(*color),
                None => None,
            },
            None => None,
        }
    }

    /// Gives the cell at `loc` a new blank colour and opens the choice for
    /// it at `pos`.
    pub fn add_color(&mut self, loc: Location, pos: P)
        requires
            old(self)@.next_color < usize::MAX,
        ensures
            final(self)@ == old(self)@.add_color(loc, pos),
    {
        proof {
            lemma_cells_of_insert(self.map@, loc, self.next_color);
        }
        self.colors.insert(self.next_color, self.blank);
        self.map.insert(key_of(loc), self.next_color);
        self.next_color += 1;
        self.start_change_color(loc, pos);
    }

    /// Opens the choice for the colour in the cell at `loc`, at `pos`.
    pub fn start_change_color(&mut self, loc: Location, pos: P)
        requires
            old(self)@.cells.contains_key(loc),
        ensures
            final(self)@ == old(self)@.start_change_color(loc, pos),
    {
        self.choose_color_idx = self.index_of(loc).unwrap();
        self.choose_color_pos = pos;
        self.choose_color_mode = true;
    }

    /// Colours the chosen index `to`.
    pub fn update_color(&mut self, to: C)
        ensures
            final(self)@ == old(self)@.update_color(to),
    {
        self.colors.insert(self.choose_color_idx, to);
    }

    /// Takes away the colour behind the cell at `loc`.
    pub fn delete_color(&mut self, loc: Location)
        requires
            old(self)@.cells.contains_key(loc),
        ensures
            final(self)@ == old(self)@.delete_color(loc),
    {
        let idx: Index = self.index_of(loc).unwrap();
        self.colors.remove(&idx);
    }

    /// Closes the choice.
    pub fn distracted(&mut self)
        ensures
            final(self)@ == old(self)@.distracted(),
    {
        self.choose_color_mode = false;
    }

    /// Whether a colour is being chosen.
    pub fn choose_color_mode(&self) -> (choosing: bool)
        ensures
            choosing == self@.choosing,
    {
        self.choose_color_mode
    }

    /// Where the choice was opened.
    pub fn choose_color_pos(&self) -> (pos: P)
        ensures
            pos == self@.chosen_at,
    {
        self.choose_color_pos
    }

    /// The colour being chosen; the blank colour where the chosen index has
    /// none.
    pub fn active_color(&self) -> (color: C)
        ensures
            color == self@.active_color(),
    {
        match self.colors.get(&self.choose_color_idx) {
            Some(color) => *color,
            None => self.blank,
        }
    }
}

} // verus!
