use grid_search::{collect_best_paths, find_shortest_path, path_cost, Direction, Grid, Position, SearchError, Tile};

fn maze(text: &str) -> Grid<Tile> {
    Grid::parse_from_string(text, Tile::from_char).unwrap()
}

#[test]
fn open_five_by_five_costs_one_turn_and_eight_steps() {
    let grid = maze("S....\n.....\n.....\n.....\n....E\n");
    let costs = find_shortest_path(&grid).unwrap();
    assert_eq!(costs.start(), Position::new(0, 0));
    assert_eq!(costs.end(), Position::new(4, 4));
    assert_eq!(costs.min_cost(), Some(1008));
}

#[test]
fn blocked_first_step_needs_two_turns() {
    let grid = maze("S#\n.E");
    let costs = find_shortest_path(&grid).unwrap();
    assert_eq!(costs.min_cost(), Some(2002));
}

#[test]
fn walled_off_end_is_unreachable() {
    let grid = maze("S#E\n.#.\n");
    let costs = find_shortest_path(&grid).unwrap();
    assert_eq!(costs.min_cost(), None);
    assert!(collect_best_paths(&grid, &costs).is_empty());
}

#[test]
fn straight_corridor_costs_its_length() {
    let grid = maze("S...E\n");
    let costs = find_shortest_path(&grid).unwrap();
    assert_eq!(costs.min_cost(), Some(4));
}

#[test]
fn missing_and_duplicate_markers_are_refused() {
    assert_eq!(find_shortest_path(&maze("...E\n")).err(), Some(SearchError::MissingMarker));
    assert_eq!(find_shortest_path(&maze("S...\n")).err(), Some(SearchError::MissingMarker));
    assert_eq!(find_shortest_path(&maze("S.SE\n")).err(), Some(SearchError::DuplicateMarker));
    assert_eq!(find_shortest_path(&maze("S.EE\n")).err(), Some(SearchError::DuplicateMarker));
    assert_eq!(find_shortest_path(&maze("..EE\n")).err(), Some(SearchError::MissingMarker));
}

#[test]
fn best_path_cells_of_open_grid_are_top_row_and_right_column() {
    let grid = maze("S....\n.....\n.....\n.....\n....E\n");
    let costs = find_shortest_path(&grid).unwrap();
    let cells = collect_best_paths(&grid, &costs);
    let mut expected = Vec::new();
    for x in 0..5 {
        expected.push(Position::new(x, 0));
    }
    for y in 1..5 {
        expected.push(Position::new(4, y));
    }
    assert_eq!(cells, expected);
}

#[test]
fn best_path_cells_cover_all_tied_routes() {
    let text = "###############\n#.......#....E#\n#.#.###.#.###.#\n#.....#.#...#.#\n#.###.#####.#.#\n#.#.#.......#.#\n#.#.#####.###.#\n#...........#.#\n###.#.#####.#.#\n#...#.....#.#.#\n#.#.#.###.#.#.#\n#.....#...#.#.#\n#.###.#.#.#.#.#\n#S..#.....#...#\n###############\n";
    let grid = maze(text);
    let costs = find_shortest_path(&grid).unwrap();
    assert_eq!(costs.min_cost(), Some(7036));
    assert_eq!(collect_best_paths(&grid, &costs).len(), 45);
}

#[test]
fn adding_a_wall_never_lowers_the_cost() {
    let open = maze("S..\n...\n..E\n");
    let mut walled = maze("S..\n...\n..E\n");
    walled.set(Position::new(1, 0), Tile::Wall);
    let before = find_shortest_path(&open).unwrap().min_cost().unwrap();
    let after = find_shortest_path(&walled).unwrap().min_cost().unwrap();
    assert_eq!(before, 1004);
    assert!(after >= before);
    assert_eq!(after, 2004);
}

#[test]
fn path_cost_counts_turns_and_steps() {
    let p = Position::new(0, 0);
    let q = Position::new(1, 0);
    let path = [(p, Direction::Right), (q, Direction::Right), (q, Direction::Down)];
    assert_eq!(path_cost(&path), 1001);
    assert_eq!(path_cost(&path[..1]), 0);
    assert_eq!(path_cost(&[]), 0);
}

#[test]
fn tile_characters_round_trip() {
    for c in ['.', '#', 'S', 'E'] {
        assert_eq!(Tile::from_char(c).unwrap().to_char(), c);
    }
    assert_eq!(Tile::from_char('x'), None);
    let grid = maze("S#\n.E\n");
    assert_eq!(grid.pretty_print(|_, t| t.to_char()), "S#\n.E\n");
}

#[test]
fn crlf_maze_reads_like_lf_maze() {
    let grid = maze("S....\r\n.....\r\n.....\r\n.....\r\n....E\r\n");
    assert_eq!(grid.width(), 5);
    let costs = find_shortest_path(&grid).unwrap();
    assert_eq!(costs.min_cost(), Some(1008));
}

#[test]
fn several_added_walls_never_lower_the_cost() {
    let open = maze("S...\n....\n...E\n");
    let mut walled = maze("S...\n....\n...E\n");
    walled.set(Position::new(2, 0), Tile::Wall);
    walled.set(Position::new(1, 1), Tile::Wall);
    let before = find_shortest_path(&open).unwrap().min_cost().unwrap();
    let after = find_shortest_path(&walled).unwrap().min_cost();
    assert_eq!(before, 1005);
    assert!(after.map_or(true, |a| a >= before));
}
