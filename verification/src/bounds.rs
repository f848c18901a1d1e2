//! The square region around a centre, clamped to the edges of the grid.
//!
//! A region is given by its two corners. The corner nearest the origin is the
//! centre moved `distance` steps up and left, the far corner is the centre moved
//! `distance` steps down and right; both stop at the edge of the grid.

use vstd::prelude::*;
use vstd::set_lib::lemma_len_subset;

verus! {

/// A zero-based `(row, col)` pair.
pub type Position = (usize, usize);

/// `at - distance`, stopping at zero.
pub open spec fn towards_origin(at: usize, distance: usize) -> usize {
    if at >= distance {
        (at - distance) as usize
    } else {
        0
    }
}

/// `at + distance`, stopping at the last index of a grid of side `world_size`.
pub open spec fn towards_edge(at: usize, distance: usize, world_size: usize) -> usize {
    if at + distance <= world_size - 1 {
        (at + distance) as usize
    } else {
        (world_size - 1) as usize
    }
}

/// The corner of the region nearest the origin.
pub open spec fn up_left_corner(row: usize, col: usize, distance: usize) -> Position {
    (towards_origin(row, distance), towards_origin(col, distance))
}

/// The corner of the region farthest from the origin.
pub open spec fn bottom_right_corner(
    row: usize,
    col: usize,
    distance: usize,
    world_size: usize,
) -> Position {
    (towards_edge(row, distance, world_size), towards_edge(col, distance, world_size))
}

/// Whether `p` lies in the region of the given `distance` around `center`, in a grid
/// of side `world_size`.
pub open spec fn in_region(
    p: Position,
    center: Position,
    distance: usize,
    world_size: usize,
) -> bool {
    let first = up_left_corner(center.0, center.1, distance);
    let last = bottom_right_corner(center.0, center.1, distance, world_size);
    first.0 <= p.0 <= last.0 && first.1 <= p.1 <= last.1
}

/// The tiles of the region of the given `distance` around `center`.
pub open spec fn region(center: Position, distance: usize, world_size: usize) -> Set<Position> {
    Set::new(|p: Position| in_region(p, center, distance, world_size))
}

/// Whether `p` is a tile of the region that comes before `(row, col)` when the region
/// is read row by row, each row from the left.
pub open spec fn read_before(
    p: Position,
    center: Position,
    distance: usize,
    world_size: usize,
    row: int,
    col: int,
) -> bool {
    in_region(p, center, distance, world_size) && (p.0 < row || (p.0 == row && p.1 < col))
}

/// Returns the upper-left corner of the square of the given `distance` around the robot.
pub fn get_up_left_corner(robot_row: usize, robot_col: usize, distance: usize) -> (corner: (
    usize,
    usize,
))
    ensures
        corner == up_left_corner(robot_row, robot_col, distance),
{
    let mut up_left_corner: (usize, usize) = (0, 0);

    if robot_row >= distance {
        up_left_corner.0 = robot_row - distance;
    }
    if robot_col >= distance {
        up_left_corner.1 = robot_col - distance;
    }
    up_left_corner
}

/// Moves `at` by `distance` towards the far edge without ever forming a sum that
/// could leave the range of `usize`.
fn step_towards_edge(at: usize, distance: usize, world_size: usize) -> (end: usize)
    requires
        world_size > 0,
    ensures
        end == towards_edge(at, distance, world_size),
{
    let last: usize = world_size - 1;
    if at >= last || distance >= last - at {
        last
    } else {
        at + distance
    }
}

/// Returns the bottom-right corner of the square of the given `distance` around the
/// robot, in a world of side `world_size`.
pub fn get_bottom_right_corner(
    robot_row: usize,
    robot_col: usize,
    distance: usize,
    world_size: usize,
) -> (corner: (usize, usize))
    requires
        world_size > 0,
    ensures
        corner == bottom_right_corner(robot_row, robot_col, distance, world_size),
{
    (
        step_towards_edge(robot_row, distance, world_size),
        step_towards_edge(robot_col, distance, world_size),
    )
}

/// For a centre inside the grid, the corners are ordered and inside the grid, the
/// centre lies between them, and neither corner is farther than `distance` from it.
pub proof fn lemma_corners_ordered(center: Position, distance: usize, world_size: usize)
    requires
        center.0 < world_size,
        center.1 < world_size,
    ensures
        ({
            let first = up_left_corner(center.0, center.1, distance);
            let last = bottom_right_corner(center.0, center.1, distance, world_size);
            &&& 0 <= first.0 <= center.0 <= last.0 <= world_size - 1
            &&& 0 <= first.1 <= center.1 <= last.1 <= world_size - 1
            &&& center.0 - first.0 <= distance && last.0 - center.0 <= distance
            &&& center.1 - first.1 <= distance && last.1 - center.1 <= distance
        }),
        in_region(center, center, distance, world_size),
{
}

/// A larger distance never shrinks the region.
pub proof fn lemma_region_grows(
    p: Position,
    center: Position,
    smaller: usize,
    larger: usize,
    world_size: usize,
)
    requires
        world_size > 0,
        smaller <= larger,
        in_region(p, center, smaller, world_size),
    ensures
        in_region(p, center, larger, world_size),
{
}

/// Every position of a region lies inside the grid.
pub proof fn lemma_region_inside(
    p: Position,
    center: Position,
    distance: usize,
    world_size: usize,
)
    requires
        world_size > 0,
        in_region(p, center, distance, world_size),
    ensures
        p.0 < world_size,
        p.1 < world_size,
{
}

/// The positions whose row is `row` and whose column is below `cols`.
spec fn in_row(row: usize, cols: nat) -> Set<Position> {
    Set::new(|p: Position| p.0 == row && p.1 < cols)
}

/// The positions whose row is below `rows` and whose column is below `cols`.
spec fn below(rows: nat, cols: nat) -> Set<Position> {
    Set::new(|p: Position| p.0 < rows && p.1 < cols)
}

proof fn lemma_in_row_finite(row: usize, cols: nat)
    ensures
        in_row(row, cols).finite(),
    decreases cols,
{
    if cols == 0 {
        assert(in_row(row, cols) =~= Set::empty());
    } else {
        let before = (cols - 1) as nat;
        lemma_in_row_finite(row, before);
        if before <= usize::MAX {
            assert(in_row(row, cols) =~= in_row(row, before).insert((row, before as usize)));
        } else {
            assert(in_row(row, cols) =~= in_row(row, before));
        }
    }
}

proof fn lemma_below_finite(rows: nat, cols: nat)
    ensures
        below(rows, cols).finite(),
    decreases rows,
{
    if rows == 0 {
        assert(below(rows, cols) =~= Set::empty());
    } else {
        let before = (rows - 1) as nat;
        lemma_below_finite(before, cols);
        if before <= usize::MAX {
            lemma_in_row_finite(before as usize, cols);
            assert(below(rows, cols) =~= below(before, cols).union(
                in_row(before as usize, cols),
            ));
        } else {
            assert(below(rows, cols) =~= below(before, cols));
        }
    }
}

/// A region holds finitely many tiles.
pub proof fn lemma_region_finite(center: Position, distance: usize, world_size: usize)
    requires
        world_size > 0,
    ensures
        region(center, distance, world_size).finite(),
{
    let all = below(world_size as nat, world_size as nat);
    lemma_below_finite(world_size as nat, world_size as nat);
    assert forall|p: Position| region(center, distance, world_size).contains(p) implies all.contains(
        p,
    ) by {
        lemma_region_inside(p, center, distance, world_size);
    }
    lemma_len_subset(region(center, distance, world_size), all);
}

/// Appending an entry that is not listed yet keeps a listing free of repetitions, and
/// lists that entry besides the others.
pub(crate) proof fn lemma_push_fresh(listing: Seq<Position>, fresh: Position)
    requires
        listing.no_duplicates(),
        !listing.contains(fresh),
    ensures
        listing.push(fresh).no_duplicates(),
        forall|p: Position|
            #[trigger] listing.push(fresh).contains(p) <==> (listing.contains(p) || p == fresh),
{
    let longer = listing.push(fresh);
    assert forall|p: Position| #[trigger] longer.contains(p) <==> (listing.contains(p) || p
        == fresh) by {
        if listing.contains(p) {
            let i = choose|i: int| 0 <= i < listing.len() && listing[i] == p;
            assert(longer[i] == p);
        }
        if p == fresh {
            assert(longer[listing.len() as int] == p);
        }
        if longer.contains(p) && p != fresh {
            let i = choose|i: int| 0 <= i < longer.len() && longer[i] == p;
            assert(listing[i] == p);
        }
    }
    assert forall|i: int, j: int| 0 <= i < longer.len() && 0 <= j < longer.len() && i
        != j implies longer[i] != longer[j] by {
        if i < listing.len() && j < listing.len() {
            assert(listing[i] != listing[j]);
        } else if i < listing.len() {
            assert(listing.contains(listing[i]));
        } else {
            assert(listing.contains(listing[j]));
        }
    }
}

} // verus!
