use grid_search::{find_hikes, Grid, Position};

fn heights(text: &str) -> Grid<u8> {
    Grid::parse_from_string(text, |c| c.to_digit(10).map(|d| d as u8)).unwrap()
}

const EXAMPLE: &str = "89010123\n78121874\n87430965\n96549874\n45678903\n32019012\n01329801\n10456732\n";

#[test]
fn example_scores_and_ratings() {
    let hikes = find_hikes(&heights(EXAMPLE));
    assert_eq!(hikes.len(), 9);
    let scores: Vec<u64> = hikes.iter().map(|t| t.score).collect();
    let ratings: Vec<u64> = hikes.iter().map(|t| t.rating).collect();
    assert_eq!(scores, vec![5, 6, 5, 3, 1, 3, 5, 3, 5]);
    assert_eq!(ratings, vec![20, 24, 10, 4, 1, 4, 5, 8, 5]);
    assert_eq!(scores.iter().sum::<u64>(), 36);
    assert_eq!(ratings.iter().sum::<u64>(), 81);
    assert_eq!(hikes[0].position, Position::new(2, 0));
}

#[test]
fn single_line_trail() {
    let hikes = find_hikes(&heights("0123456789\n"));
    assert_eq!(hikes.len(), 1);
    assert_eq!(hikes[0].score, 1);
    assert_eq!(hikes[0].rating, 1);
}

#[test]
fn trail_that_stops_short_scores_nothing() {
    let hikes = find_hikes(&heights("012345678\n"));
    assert_eq!(hikes.len(), 1);
    assert_eq!(hikes[0].score, 0);
    assert_eq!(hikes[0].rating, 0);
}

#[test]
fn two_trails_to_one_summit() {
    let hikes = find_hikes(&heights("0123\n1234\n2345\n3456\n4567\n5678\n6789\n"));
    assert_eq!(hikes.len(), 1);
    assert_eq!(hikes[0].score, 1);
    assert_eq!(hikes[0].rating, 84);
}
