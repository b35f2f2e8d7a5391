use grid_search::{find_regions, region_perimeter, region_sides, Direction, Grid, Position};

fn plots(text: &str) -> Grid<char> {
    Grid::parse_from_string(text, Some).unwrap()
}

fn price(text: &str) -> (usize, usize) {
    let grid = plots(text);
    let regions = find_regions(&grid);
    let by_perimeter = regions.iter().map(|r| r.len() * region_perimeter(r).len()).sum();
    let by_sides = regions.iter().map(|r| r.len() * region_sides(r).len()).sum();
    (by_perimeter, by_sides)
}

#[test]
fn uniform_grid_is_one_region() {
    let grid = plots("aaaa\naaaa\naaaa\n");
    let regions = find_regions(&grid);
    assert_eq!(regions.len(), 1);
    assert_eq!(regions[0].len(), 12);
    assert_eq!(region_perimeter(&regions[0]).len(), 2 * (4 + 3));
    assert_eq!(region_sides(&regions[0]).len(), 4);
}

#[test]
fn single_cell_has_four_fences_and_four_sides() {
    let region = vec![Position::new(0, 0)];
    assert_eq!(region_perimeter(&region).len(), 4);
    assert_eq!(region_sides(&region).len(), 4);
    let inner = vec![Position::new(3, 3)];
    let fences = region_perimeter(&inner);
    assert_eq!(fences, vec![
        (Position::new(3, 3), Direction::Down),
        (Position::new(3, 3), Direction::Up),
        (Position::new(3, 3), Direction::Left),
        (Position::new(3, 3), Direction::Right),
    ]);
}

#[test]
fn regions_partition_the_grid() {
    let grid = plots("AAAA\nBBCD\nBBCC\nEEEC\n");
    let regions = find_regions(&grid);
    assert_eq!(regions.len(), 5);
    let mut seen = Vec::new();
    for r in &regions {
        for p in r {
            assert!(!seen.contains(p));
            seen.push(*p);
        }
    }
    assert_eq!(seen.len(), 16);
    let sizes: Vec<usize> = regions.iter().map(|r| r.len()).collect();
    assert_eq!(sizes, vec![4, 4, 4, 1, 3]);
}

#[test]
fn small_garden_prices() {
    assert_eq!(price("AAAA\nBBCD\nBBCC\nEEEC\n"), (140, 80));
}

#[test]
fn enclosed_garden_prices() {
    assert_eq!(price("OOOOO\nOXOXO\nOOOOO\nOXOXO\nOOOOO\n"), (772, 436));
}

#[test]
fn separate_patches_of_one_letter_are_separate_regions() {
    let grid = plots("ab\nba\n");
    let regions = find_regions(&grid);
    assert_eq!(regions.len(), 4);
    for r in &regions {
        assert_eq!(r.len(), 1);
    }
}

#[test]
fn sides_never_exceed_fences() {
    let grid = plots("RRRRIICCFF\nRRRRIICCCF\nVVRRRCCFFF\nVVRCCCJFFF\nVVVVCJJCFE\nVVIVCCJJEE\nVVIIICJJEE\nMIIIIIJJEE\nMIIISIJEEE\nMMMISSJEEE\n");
    let regions = find_regions(&grid);
    for r in &regions {
        assert!(region_sides(r).len() <= region_perimeter(r).len());
    }
    assert_eq!(price("RRRRIICCFF\nRRRRIICCCF\nVVRRRCCFFF\nVVRCCCJFFF\nVVVVCJJCFE\nVVIVCCJJEE\nVVIIICJJEE\nMIIIIIJJEE\nMIIISIJEEE\nMMMISSJEEE\n"), (1930, 1206));
}
