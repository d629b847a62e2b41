use scene_math::grid::GridPoint;

#[test]
fn test_neighbor() {
    let grid = GridPoint::<4>::new([0, 1, 2, 3]);
    assert_eq!(grid.neighbor().len(), 3_usize.pow(4) - 1);
}

#[test]
fn new_and_location_round_trip() {
    let grid = GridPoint::<3>::new([7, -2, 40]);
    assert_eq!(grid.location(), [7, -2, 40]);
}

#[test]
fn origin_is_all_zero() {
    let grid = GridPoint::<5>::origin();
    assert_eq!(grid.location(), [0; 5]);
}

#[test]
fn translate_adds_per_axis() {
    let grid = GridPoint::<3>::new([1, 2, 3]);
    let moved = grid.translate([10, 0, -5]);
    assert_eq!(moved.location(), [11, 2, -2]);
    assert_eq!(grid.location(), [1, 2, 3]);
}

#[test]
fn adjacent_two_dimensions_exact() {
    let grid = GridPoint::<2>::new([3, 4]);
    let adjacent = grid.adjacent();
    let locations: Vec<[i64; 2]> = adjacent.iter().map(|p| p.location()).collect();
    assert_eq!(locations, vec![[2, 4], [4, 4], [3, 3], [3, 5]]);
}

#[test]
fn adjacent_count_is_twice_the_dimension() {
    let grid = GridPoint::<6>::new([0, 0, 0, 0, 0, 0]);
    assert_eq!(grid.adjacent().len(), 12);
}

#[test]
fn move_i_in_range() {
    let grid = GridPoint::<3>::new([1, 2, 3]);
    let moved = grid.move_i(1, -7).unwrap();
    assert_eq!(moved.location(), [1, -5, 3]);
}

#[test]
fn move_i_out_of_range() {
    let grid = GridPoint::<3>::new([1, 2, 3]);
    assert!(grid.move_i(3, 1).is_none());
}

#[test]
fn neighbor_one_dimension() {
    let grid = GridPoint::<1>::new([5]);
    let neighbors: Vec<[i64; 1]> = grid.neighbor().iter().map(|p| p.location()).collect();
    assert_eq!(neighbors.len(), 2);
    assert!(neighbors.contains(&[4]));
    assert!(neighbors.contains(&[6]));
}

#[test]
fn neighbor_two_dimensions_complete_and_distinct() {
    let grid = GridPoint::<2>::new([10, -10]);
    let neighbors: Vec<[i64; 2]> = grid.neighbor().iter().map(|p| p.location()).collect();
    assert_eq!(neighbors.len(), 8);
    for dx in -1..=1_i64 {
        for dy in -1..=1_i64 {
            if dx != 0 || dy != 0 {
                assert!(neighbors.contains(&[10 + dx, -10 + dy]));
            }
        }
    }
    for (i, a) in neighbors.iter().enumerate() {
        assert!(!neighbors[i + 1..].contains(a));
        assert_ne!(*a, [10, -10]);
    }
}

#[test]
fn zero_dimension_grid_has_no_neighbors() {
    let grid = GridPoint::<0>::new([]);
    assert_eq!(grid.adjacent().len(), 0);
    assert_eq!(grid.neighbor().len(), 0);
}

#[test]
fn move_i_far_from_the_origin() {
    let grid = GridPoint::<2>::new([i64::MAX - 1, i64::MIN + 1]);
    let moved = grid.move_i(0, 1).unwrap();
    assert_eq!(moved.location(), [i64::MAX, i64::MIN + 1]);
}

#[test]
fn neighbor_excludes_the_point_itself() {
    let grid = GridPoint::<3>::new([2, 2, 2]);
    let neighbors = grid.neighbor();
    assert_eq!(neighbors.len(), 26);
    assert!(neighbors.iter().all(|p| p.location() != [2, 2, 2]));
}
