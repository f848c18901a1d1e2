use spotlight::Grid;

#[test]
fn a_square_matrix_is_a_map() {
    let map = Grid::new(vec![vec![false, true], vec![true, false]]).unwrap();
    assert_eq!(map.size(), 2);
    assert!(map.is_hidden(0, 0));
    assert!(!map.is_hidden(0, 1));
    assert!(!map.is_hidden(1, 0));
    assert!(map.is_hidden(1, 1));
}

#[test]
fn an_empty_matrix_is_no_map() {
    assert!(Grid::new(vec![]).is_none());
}

#[test]
fn a_matrix_that_is_not_square_is_no_map() {
    assert!(Grid::new(vec![vec![true, true]]).is_none());
    assert!(Grid::new(vec![vec![true], vec![true]]).is_none());
    assert!(Grid::new(vec![vec![true, true], vec![true]]).is_none());
    assert!(Grid::new(vec![vec![true, true], vec![true, true, true]]).is_none());
    assert!(Grid::new(vec![vec![]]).is_none());
}

#[test]
fn tiles_outside_the_map_are_not_hidden() {
    let map = Grid::new(vec![vec![false; 3]; 3]).unwrap();
    assert!(map.is_hidden(2, 2));
    assert!(!map.is_hidden(3, 0));
    assert!(!map.is_hidden(0, 3));
    assert!(!map.is_hidden(usize::MAX, usize::MAX));
}

#[test]
fn the_smallest_map_has_one_tile() {
    let map = Grid::new(vec![vec![true]]).unwrap();
    assert_eq!(map.size(), 1);
    assert!(!map.is_hidden(0, 0));
}
