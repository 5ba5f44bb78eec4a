use tu4::Tape;

#[test]
fn fresh_tape_is_one_blank_cell() {
    let t = Tape::new();
    assert_eq!(t.to_string(), "_");
    assert_eq!(t.head_marker(), "^");
}

#[test]
fn write_then_read_round_trip() {
    let mut t = Tape::new();
    t.set_current('x');
    assert_eq!(t.get_current(), 'x');
    assert_eq!(t.to_string(), "x");
}

#[test]
fn shifting_away_and_back_keeps_written_symbols() {
    let mut t = Tape::new();
    t.set_current('x');
    for _ in 0..5 {
        t.shift_left();
    }
    for _ in 0..5 {
        t.shift_right();
    }
    assert_eq!(t.get_current(), 'x');
    for _ in 0..7 {
        t.shift_right();
    }
    for _ in 0..7 {
        t.shift_left();
    }
    assert_eq!(t.get_current(), 'x');
}

#[test]
fn moving_past_the_extent_materializes_blank_cells() {
    let mut t = Tape::new();
    t.set_current('x');
    t.shift_left();
    assert_eq!(t.get_current(), ' ');
    assert_eq!(t.to_string(), "_x");
    t.shift_right();
    t.shift_right();
    assert_eq!(t.get_current(), ' ');
    assert_eq!(t.to_string(), "_x_");
    assert_eq!(t.head_marker(), "  ^");
}

#[test]
fn head_marker_tracks_the_head() {
    let mut t = Tape::new();
    t.set_current('a');
    t.shift_right();
    t.set_current('b');
    t.shift_right();
    assert_eq!(t.to_string(), "ab_");
    assert_eq!(t.head_marker(), "  ^");
    t.shift_left();
    assert_eq!(t.head_marker(), " ^ ");
    t.shift_left();
    assert_eq!(t.head_marker(), "^  ");
}

#[test]
fn default_tape_equals_a_fresh_one() {
    let t = Tape::default();
    assert_eq!(t.to_string(), "_");
}
