use grid_search::{Direction, Grid, ParseError, Position};

fn digit(c: char) -> Option<u8> {
    c.to_digit(10).map(|d| d as u8)
}

fn show(_p: Position, v: &u8) -> char {
    (b'0' + *v) as char
}

#[test]
fn parse_then_render_gives_back_the_text() {
    let text = "123\n456\n";
    let grid = Grid::parse_from_string(text, digit).unwrap();
    assert_eq!(grid.width(), 3);
    assert_eq!(grid.height(), 2);
    assert_eq!(grid.pretty_print(show), text);
}

#[test]
fn parse_without_final_line_feed_renders_with_one() {
    let grid = Grid::parse_from_string("12\n34", digit).unwrap();
    assert_eq!(grid.pretty_print(show), "12\n34\n");
    assert_eq!(grid.get(Position::new(1, 1)), Some(&4));
}

#[test]
fn parse_refuses_ragged_lines() {
    assert!(matches!(Grid::parse_from_string("123\n45\n", digit), Err(ParseError::MalformedGrid)));
}

#[test]
fn parse_refuses_empty_text() {
    assert!(matches!(Grid::parse_from_string("", digit), Err(ParseError::MalformedGrid)));
    assert!(matches!(Grid::parse_from_string("\n", digit), Err(ParseError::MalformedGrid)));
    assert!(matches!(Grid::parse_from_string("12\n\n34", digit), Err(ParseError::MalformedGrid)));
}

#[test]
fn parse_refuses_unmapped_character() {
    assert!(matches!(Grid::parse_from_string("12\n3x\n", digit), Err(ParseError::InvalidCell)));
}

#[test]
fn get_outside_the_grid_is_none() {
    let grid = Grid::new(3, 2, 7u8);
    assert_eq!(grid.get(Position::new(2, 1)), Some(&7));
    assert_eq!(grid.get(Position::new(3, 0)), None);
    assert_eq!(grid.get(Position::new(0, 2)), None);
    assert_eq!(grid.cell_count(), 6);
}

#[test]
fn get_after_set_reads_the_written_value() {
    let mut grid = Grid::new(4, 3, 0u8);
    grid.set(Position::new(3, 2), 9);
    assert_eq!(grid.get(Position::new(3, 2)), Some(&9));
    assert_eq!(grid.get(Position::new(2, 2)), Some(&0));
}

#[test]
fn find_after_set_includes_the_written_position() {
    let mut grid = Grid::parse_from_string("121\n212\n", digit).unwrap();
    grid.set(Position::new(0, 1), 1);
    let found = grid.find(&1);
    assert_eq!(found, vec![Position::new(0, 0), Position::new(2, 0), Position::new(0, 1), Position::new(1, 1)]);
    assert!(!found.contains(&Position::new(1, 0)));
}

#[test]
fn find_of_absent_value_is_empty() {
    let grid = Grid::new(2, 2, 1u8);
    assert!(grid.find(&5).is_empty());
}

#[test]
fn moving_off_the_top_or_left_edge_is_none() {
    let p = Position::new(0, 0);
    assert_eq!(p.move_to(Direction::Up), None);
    assert_eq!(p.move_to(Direction::Left), None);
    assert_eq!(p.move_to(Direction::Right), Some(Position::new(1, 0)));
    assert_eq!(p.move_to(Direction::Down), Some(Position::new(0, 1)));
    let far = Position::new(u32::MAX, 5);
    assert_eq!(far.move_to(Direction::Right), None);
    assert_eq!(Position::new(5, 5).move_by(Direction::Up, 5), Some(Position::new(5, 0)));
    assert_eq!(Position::new(5, 5).move_by(Direction::Left, 6), None);
}

#[test]
fn turns_follow_the_rotation_table() {
    assert_eq!(Direction::Up.turn90(), Direction::Right);
    assert_eq!(Direction::Right.turn90(), Direction::Down);
    assert_eq!(Direction::Left.turn180(), Direction::Right);
    assert_eq!(Direction::Up.turn270(), Direction::Left);
    assert_eq!(Direction::Down.turn270(), Direction::Right);
    assert_eq!(Direction::all(), [Direction::Down, Direction::Up, Direction::Left, Direction::Right]);
}

#[test]
fn direction_characters_round_trip() {
    for d in Direction::all() {
        assert_eq!(Direction::from_char(d.to_char()), Some(d));
    }
    assert_eq!(Direction::Down.to_char(), 'v');
    assert_eq!(Direction::from_char('x'), None);
}

#[test]
fn crlf_line_ends_are_line_ends() {
    let grid = Grid::parse_from_string("12\r\n34\r\n", digit).unwrap();
    assert_eq!(grid.width(), 2);
    assert_eq!(grid.height(), 2);
    assert_eq!(grid.pretty_print(show), "12\n34\n");
    let grid = Grid::parse_from_string("ab\r\ncd", |c| if c.is_ascii_lowercase() { Some(c) } else { None }).unwrap();
    assert_eq!(grid.width(), 2);
    assert_eq!(grid.get(Position::new(1, 1)), Some(&'d'));
    let grid = Grid::parse_from_string("1\r\n2\r\n", digit).unwrap();
    assert_eq!(grid.cell_count(), 2);
}

#[test]
fn lone_carriage_return_is_a_cell() {
    assert!(matches!(Grid::parse_from_string("1\r2\n", digit), Err(ParseError::InvalidCell)));
}

#[test]
fn parse_refuses_short_middle_line() {
    assert!(matches!(Grid::parse_from_string("ab\nc\nabc", Some), Err(ParseError::MalformedGrid)));
}
