use blush::state::map_data::MapData;
use blush::state::{Chan, Message, State};

type Msg = Message<u32, (i32, i32)>;

fn start() -> State<u32, (i32, i32)> {
    State::new(MapData::starting(0xfcfafa, 0xc8d3d5, 0xa4b8c4, 0x777777, (0, 0)))
}

#[test]
fn starting_map_shows_three_colors() {
    let state = start();
    let map = state.color_map();
    assert_eq!(map.size(), (2, 3));
    assert_eq!(map.color_at((0, 0)), Some(0xfcfafa));
    assert_eq!(map.color_at((1, 0)), Some(0xc8d3d5));
    assert_eq!(map.color_at((1, 1)), Some(0xa4b8c4));
    assert_eq!(map.color_at((0, 1)), None);
    assert_eq!(map.index_at((0, 0)), Some("0".to_owned()));
    assert_eq!(map.index_at((1, 1)), Some("2".to_owned()));
    assert_eq!(map.index_at((0, 2)), None);
    assert!(!map.choose_color_mode());
    assert_eq!(map.choose_color_pos(), (0, 0));
    assert_eq!(map.active_color(), 0xfcfafa);
}

#[test]
fn default_message_does_nothing() {
    let mut state = start();
    assert!(matches!(Msg::default(), Message::NoOp));
    state.process(Msg::default());
    assert_eq!(state.color_map().color_at((0, 0)), Some(0xfcfafa));
    assert!(!state.color_map().choose_color_mode());
}

#[test]
fn add_color_opens_the_choice_for_a_blank_entry() {
    let mut state = start();
    state.process(Message::AddColor { loc: (0, 2), pos: (40, 50) });
    let map = state.color_map();
    assert_eq!(map.color_at((0, 2)), Some(0x777777));
    assert_eq!(map.index_at((0, 2)), Some("3".to_owned()));
    assert!(map.choose_color_mode());
    assert_eq!(map.choose_color_pos(), (40, 50));
    assert_eq!(map.active_color(), 0x777777);
}

#[test]
fn change_color_colors_the_chosen_entry() {
    let mut state = start();
    state.process(Message::UpdateColor { loc: (1, 1), pos: (7, 8) });
    assert_eq!(state.color_map().active_color(), 0xa4b8c4);
    state.process(Message::ChangeColor { to: 0x123456 });
    assert_eq!(state.color_map().color_at((1, 1)), Some(0x123456));
    assert_eq!(state.color_map().color_at((1, 0)), Some(0xc8d3d5));
    assert_eq!(state.color_map().active_color(), 0x123456);
}

#[test]
fn distracted_closes_the_choice() {
    let mut state = start();
    state.process(Message::UpdateColor { loc: (1, 0), pos: (1, 2) });
    assert!(state.color_map().choose_color_mode());
    state.process(Message::Distracted);
    assert!(!state.color_map().choose_color_mode());
    assert_eq!(state.color_map().choose_color_pos(), (1, 2));
}

#[test]
fn delete_color_leaves_the_cell_its_index() {
    let mut state = start();
    state.process(Message::DeleteColor { loc: (1, 0) });
    let map = state.color_map();
    assert_eq!(map.color_at((1, 0)), None);
    assert_eq!(map.index_at((1, 0)), Some("1".to_owned()));
    assert_eq!(map.color_at((0, 0)), Some(0xfcfafa));
}

#[test]
fn deleted_chosen_color_reads_as_blank() {
    let mut state = start();
    state.process(Message::UpdateColor { loc: (1, 0), pos: (0, 0) });
    state.process(Message::DeleteColor { loc: (1, 0) });
    assert_eq!(state.color_map().active_color(), 0x777777);
}

#[test]
fn messages_about_empty_cells_are_not_accepted() {
    let state = start();
    assert!(state.accepts(&Message::NoOp));
    assert!(state.accepts(&Message::Distracted));
    assert!(state.accepts(&Message::ChangeColor { to: 1 }));
    assert!(state.accepts(&Message::AddColor { loc: (5, 5), pos: (0, 0) }));
    assert!(state.accepts(&Message::UpdateColor { loc: (1, 1), pos: (0, 0) }));
    assert!(state.accepts(&Message::DeleteColor { loc: (0, 0) }));
    assert!(!state.accepts(&Message::UpdateColor { loc: (0, 1), pos: (0, 0) }));
    assert!(!state.accepts(&Message::DeleteColor { loc: (2, 2) }));
}

#[test]
fn process_chan_applies_every_message_in_turn() {
    let mut state = start();
    let mut chan: Chan<u32, (i32, i32)> = Chan::new();
    chan.push(Message::AddColor { loc: (0, 1), pos: (3, 4) });
    chan.push(Message::ChangeColor { to: 0xabcdef });
    chan.push(Message::Distracted);
    chan.push(Message::AddColor { loc: (0, 2), pos: (5, 6) });
    assert!(state.process_chan(&mut chan).is_none());
    assert!(chan.items().is_empty());
    let map = state.color_map();
    assert_eq!(map.color_at((0, 1)), Some(0xabcdef));
    assert_eq!(map.color_at((0, 2)), Some(0x777777));
    assert_eq!(map.index_at((0, 1)), Some("3".to_owned()));
    assert_eq!(map.index_at((0, 2)), Some("4".to_owned()));
    assert!(map.choose_color_mode());
    assert_eq!(map.choose_color_pos(), (5, 6));
}

#[test]
fn process_chan_stops_at_the_first_refused_message() {
    let mut state = start();
    let mut chan: Chan<u32, (i32, i32)> = Chan::new();
    chan.push(Message::DeleteColor { loc: (0, 0) });
    chan.push(Message::DeleteColor { loc: (9, 9) });
    chan.push(Message::DeleteColor { loc: (1, 1) });
    let refused = state.process_chan(&mut chan);
    assert!(matches!(refused, Some(Message::DeleteColor { loc: (9, 9) })));
    assert!(chan.items().is_empty());
    assert_eq!(state.color_map().color_at((0, 0)), None);
    assert_eq!(state.color_map().color_at((1, 1)), Some(0xa4b8c4));
}

#[test]
fn a_cell_can_be_given_a_new_color_twice() {
    let mut state = start();
    state.process(Message::AddColor { loc: (0, 0), pos: (0, 0) });
    state.process(Message::ChangeColor { to: 5 });
    state.process(Message::AddColor { loc: (0, 0), pos: (0, 0) });
    let map = state.color_map();
    assert_eq!(map.index_at((0, 0)), Some("4".to_owned()));
    assert_eq!(map.color_at((0, 0)), Some(0x777777));
}

#[test]
fn cells_in_far_rows_and_columns_stay_apart() {
    let mut state = start();
    state.process(Message::AddColor { loc: (usize::MAX, 0), pos: (0, 0) });
    state.process(Message::AddColor { loc: (0, usize::MAX), pos: (0, 0) });
    state.process(Message::ChangeColor { to: 9 });
    let map = state.color_map();
    assert_eq!(map.color_at((usize::MAX, 0)), Some(0x777777));
    assert_eq!(map.color_at((0, usize::MAX)), Some(9));
    assert_eq!(map.color_at((usize::MAX, usize::MAX)), None);
}
