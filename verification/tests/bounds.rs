use spotlight::bounds::{get_bottom_right_corner, get_up_left_corner};

#[test]
fn up_left_corner_moves_up_and_left() {
    assert_eq!(get_up_left_corner(5, 7, 2), (3, 5));
    assert_eq!(get_up_left_corner(5, 7, 0), (5, 7));
    assert_eq!(get_up_left_corner(5, 7, 5), (0, 2));
}

#[test]
fn up_left_corner_stops_at_the_origin() {
    assert_eq!(get_up_left_corner(1, 1, 2), (0, 0));
    assert_eq!(get_up_left_corner(0, 3, 1), (0, 2));
    assert_eq!(get_up_left_corner(3, 0, 1), (2, 0));
    assert_eq!(get_up_left_corner(4, 9, usize::MAX), (0, 0));
}

#[test]
fn bottom_right_corner_moves_down_and_right() {
    assert_eq!(get_bottom_right_corner(5, 7, 2, 20), (7, 9));
    assert_eq!(get_bottom_right_corner(5, 7, 0, 20), (5, 7));
    assert_eq!(get_bottom_right_corner(0, 0, 19, 20), (19, 19));
}

#[test]
fn bottom_right_corner_stops_at_the_edge() {
    assert_eq!(get_bottom_right_corner(1, 1, 2, 3), (2, 2));
    assert_eq!(get_bottom_right_corner(2, 0, 1, 3), (2, 1));
    assert_eq!(get_bottom_right_corner(0, 2, 1, 3), (1, 2));
    assert_eq!(get_bottom_right_corner(0, 0, 1, 1), (0, 0));
}

#[test]
fn bottom_right_corner_takes_any_distance() {
    assert_eq!(get_bottom_right_corner(4, 9, usize::MAX, 10), (9, 9));
    assert_eq!(get_bottom_right_corner(usize::MAX - 1, 3, usize::MAX, usize::MAX), (
        usize::MAX - 1,
        usize::MAX - 1,
    ));
}

#[test]
fn corners_are_ordered_and_inside_the_grid() {
    let size = 6;
    for row in 0..size {
        for col in 0..size {
            for distance in 0..9 {
                let first = get_up_left_corner(row, col, distance);
                let last = get_bottom_right_corner(row, col, distance, size);
                assert!(first.0 <= row && row <= last.0 && last.0 <= size - 1);
                assert!(first.1 <= col && col <= last.1 && last.1 <= size - 1);
                assert!(row - first.0 <= distance && last.0 - row <= distance);
                assert!(col - first.1 <= distance && last.1 - col <= distance);
            }
        }
    }
}

#[test]
fn whole_grid_is_the_region_of_a_centre_with_enough_distance() {
    assert_eq!(get_up_left_corner(1, 1, 2), (0, 0));
    assert_eq!(get_bottom_right_corner(1, 1, 2, 3), (2, 2));
}
