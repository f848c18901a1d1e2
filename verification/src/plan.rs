//! Which tiles an illumination discovers one by one, and in which order.
//!
//! After the four directional views the robot reads its map again. Every tile of the
//! square that is still hidden is a candidate. The candidates are discovered nearest
//! first.

use crate::bounds::{
    bottom_right_corner, get_bottom_right_corner, get_up_left_corner, in_region,
    lemma_corners_ordered, lemma_push_fresh, lemma_region_finite, lemma_region_inside,
    read_before, region, up_left_corner, Position,
};
use crate::grid::{
    discover_all, hidden, inside, is_grid, is_hidden_in, lemma_discover_all, lemma_side_fits, Grid,
};
use crate::order::{
    distance_squared, lemma_order_asymmetric, lemma_order_total, lemma_order_transitive,
    reveals_before, sort_tiles,
};
use vstd::prelude::*;
use vstd::seq_lib::to_multiset_contains;
use vstd::set_lib::lemma_len_subset;

verus! {

/// The tiles that are left to discover: the hidden tiles of the square of the given
/// `distance` around `robot`.
pub open spec fn candidates(cells: Seq<Seq<bool>>, robot: Position, distance: usize) -> Set<
    Position,
> {
    region(robot, distance, cells.len() as usize).filter(is_hidden_in(cells))
}

/// Whether `order` lists the members of `tiles`, each once and no other tile, so that
/// a robot at `robot` discovers each listed tile before the ones listed after it.
pub open spec fn lists_in_order(order: Seq<Position>, tiles: Set<Position>, robot: Position) -> bool {
    &&& forall|i: int, j: int|
        0 <= i < j < order.len() ==> reveals_before(robot, #[trigger] order[i], #[trigger] order[j])
    &&& forall|p: Position| #[trigger] order.contains(p) <==> tiles.contains(p)
}

/// The candidates in the order of their discovery.
pub open spec fn reveal_order(cells: Seq<Seq<bool>>, robot: Position, distance: usize) -> Seq<
    Position,
> {
    choose|order: Seq<Position>| lists_in_order(order, candidates(cells, robot, distance), robot)
}

/// A set of tiles has at most one listing in the order of discovery.
pub proof fn lemma_order_unique(
    one: Seq<Position>,
    other: Seq<Position>,
    tiles: Set<Position>,
    robot: Position,
)
    requires
        lists_in_order(one, tiles, robot),
        lists_in_order(other, tiles, robot),
    ensures
        one == other,
    decreases one.len(),
{
    if one.len() == 0 {
        if other.len() > 0 {
            assert(other.contains(other[0]));
            assert(one.contains(other[0]));
        }
        assert(one =~= other);
    } else {
        let last = one.last();
        assert(one.contains(last));
        assert(other.contains(last));
        let k = choose|k: int| 0 <= k < other.len() && other[k] == last;
        assert(other.contains(other.last()));
        assert(one.contains(other.last()));
        let m = choose|m: int| 0 <= m < one.len() && one[m] == other.last();
        lemma_order_asymmetric(robot, last, other.last());
        assert(other.last() == last);
        let rest = tiles.remove(last);
        assert forall|p: Position| #[trigger] one.drop_last().contains(p) <==> rest.contains(p) by {
            if one.drop_last().contains(p) {
                let i = choose|i: int| 0 <= i < one.drop_last().len() && one.drop_last()[i] == p;
                assert(one[i] == p);
                assert(one.contains(p));
                assert(reveals_before(robot, one[i], one[one.len() - 1]));
                lemma_order_asymmetric(robot, p, last);
            }
            if rest.contains(p) {
                assert(one.contains(p));
                let i = choose|i: int| 0 <= i < one.len() && one[i] == p;
                assert(one.drop_last()[i] == p);
            }
        }
        assert forall|p: Position| #[trigger]
            other.drop_last().contains(p) <==> rest.contains(p) by {
            if other.drop_last().contains(p) {
                let i = choose|i: int|
                    0 <= i < other.drop_last().len() && other.drop_last()[i] == p;
                assert(other[i] == p);
                assert(other.contains(p));
                assert(reveals_before(robot, other[i], other[other.len() - 1]));
                lemma_order_asymmetric(robot, p, last);
            }
            if rest.contains(p) {
                assert(other.contains(p));
                let i = choose|i: int| 0 <= i < other.len() && other[i] == p;
                assert(other.drop_last()[i] == p);
            }
        }
        lemma_order_unique(one.drop_last(), other.drop_last(), rest, robot);
        assert(one =~= one.drop_last().push(last));
        assert(other =~= other.drop_last().push(last));
    }
}

/// Among finitely many tiles, if there are any, one is discovered after all others.
proof fn lemma_last_exists(tiles: Set<Position>, robot: Position) -> (last: Position)
    requires
        tiles.finite(),
        tiles.len() > 0,
    ensures
        tiles.contains(last),
        forall|p: Position| tiles.contains(p) && p != last ==> reveals_before(robot, p, last),
    decreases tiles.len(),
{
    let any = tiles.choose();
    let rest = tiles.remove(any);
    if rest.len() == 0 {
        assert forall|p: Position| tiles.contains(p) && p != any implies reveals_before(
            robot,
            p,
            any,
        ) by {
            assert(rest.contains(p));
        }
        any
    } else {
        let last = lemma_last_exists(rest, robot);
        lemma_order_total(robot, any, last);
        if reveals_before(robot, last, any) {
            assert forall|p: Position| tiles.contains(p) && p != any implies reveals_before(
                robot,
                p,
                any,
            ) by {
                assert(rest.contains(p));
                lemma_order_transitive(robot, p, last, any);
            }
            any
        } else {
            assert forall|p: Position| tiles.contains(p) && p != last implies reveals_before(
                robot,
                p,
                last,
            ) by {
                if p != any {
                    assert(rest.contains(p));
                }
            }
            last
        }
    }
}

/// Finitely many tiles can be listed in the order of their discovery.
pub proof fn lemma_order_exists(tiles: Set<Position>, robot: Position) -> (order: Seq<Position>)
    requires
        tiles.finite(),
    ensures
        lists_in_order(order, tiles, robot),
    decreases tiles.len(),
{
    if tiles.len() == 0 {
        let order = Seq::<Position>::empty();
        assert forall|p: Position| #[trigger] order.contains(p) <==> tiles.contains(p) by {
            if tiles.contains(p) {
                assert(tiles.remove(p).len() >= 0);
            }
        }
        order
    } else {
        let last = lemma_last_exists(tiles, robot);
        let before = lemma_order_exists(tiles.remove(last), robot);
        let order = before.push(last);
        assert forall|i: int, j: int| 0 <= i < j < order.len() implies reveals_before(
            robot,
            #[trigger] order[i],
            #[trigger] order[j],
        ) by {
            assert(before.contains(before[i]));
        }
        assert forall|p: Position| #[trigger] order.contains(p) <==> tiles.contains(p) by {
            if order.contains(p) {
                let i = choose|i: int| 0 <= i < order.len() && order[i] == p;
                if i < before.len() {
                    assert(before.contains(before[i]));
                }
            }
            if tiles.contains(p) {
                if p == last {
                    assert(order[before.len() as int] == p);
                } else {
                    assert(before.contains(p));
                    let i = choose|i: int| 0 <= i < before.len() && before[i] == p;
                    assert(order[i] == p);
                }
            }
        }
        order
    }
}

/// On every grid the candidates have an order of discovery, and `reveal_order` is it.
pub proof fn lemma_reveal_order(cells: Seq<Seq<bool>>, robot: Position, distance: usize)
    requires
        is_grid(cells),
    ensures
        lists_in_order(
            reveal_order(cells, robot, distance),
            candidates(cells, robot, distance),
            robot,
        ),
{
    lemma_side_fits(cells);
    let size = cells.len() as usize;
    lemma_region_finite(robot, distance, size);
    lemma_len_subset(candidates(cells, robot, distance), region(robot, distance, size));
    let order = lemma_order_exists(candidates(cells, robot, distance), robot);
}

/// Two tiles of a grid are never so far apart that the square of their distance leaves
/// the range of `usize`.
pub proof fn lemma_within_reach(cells: Seq<Seq<bool>>, robot: Position, p: Position)
    requires
        is_grid(cells),
        inside(cells, robot),
        inside(cells, p),
    ensures
        0 <= distance_squared(p, robot) <= usize::MAX,
{
    let size = cells.len() as int;
    let rows = p.0 - robot.0;
    let cols = p.1 - robot.1;
    assert(0 <= rows * rows + cols * cols <= 3 * size * size) by (nonlinear_arith)
        requires
            -size < rows < size,
            -size < cols < size,
    ;
}

/// Whether `p` is a candidate that comes before `(row, col)` when the square is read
/// row by row.
spec fn found_before(
    p: Position,
    cells: Seq<Seq<bool>>,
    robot: Position,
    distance: usize,
    row: int,
    col: int,
) -> bool {
    hidden(cells, p) && read_before(p, robot, distance, cells.len() as usize, row, col)
}

/// Lists the hidden tiles of the square around `robot`, each once.
fn hidden_tiles(grid: &Grid, robot: Position, distance: usize) -> (tiles: Vec<Position>)
    requires
        inside(grid@, robot),
    ensures
        tiles@.no_duplicates(),
        forall|p: Position|
            #[trigger] tiles@.contains(p) <==> candidates(grid@, robot, distance).contains(p),
{
    let size = grid.size();
    let first = get_up_left_corner(robot.0, robot.1, distance);
    let last = get_bottom_right_corner(robot.0, robot.1, distance, size);
    proof {
        lemma_corners_ordered(robot, distance, size);
    }
    let mut tiles: Vec<Position> = Vec::new();
    let mut row: usize = first.0;
    while row <= last.0
        invariant
            size == grid@.len(),
            first == up_left_corner(robot.0, robot.1, distance),
            last == bottom_right_corner(robot.0, robot.1, distance, size),
            first.0 <= last.0 < size,
            first.1 <= last.1 < size,
            first.0 <= row <= last.0 + 1,
            tiles@.no_duplicates(),
            forall|p: Position|
                tiles@.contains(p) <==> found_before(
                    p,
                    grid@,
                    robot,
                    distance,
                    row as int,
                    first.1 as int,
                ),
        decreases last.0 + 1 - row,
    {
        let mut col: usize = first.1;
        while col <= last.1
            invariant
                size == grid@.len(),
                first == up_left_corner(robot.0, robot.1, distance),
                last == bottom_right_corner(robot.0, robot.1, distance, size),
                first.0 <= last.0 < size,
                first.1 <= last.1 < size,
                first.0 <= row <= last.0,
                first.1 <= col <= last.1 + 1,
                tiles@.no_duplicates(),
                forall|p: Position|
                    tiles@.contains(p) <==> found_before(
                        p,
                        grid@,
                        robot,
                        distance,
                        row as int,
                        col as int,
                    ),
            decreases last.1 + 1 - col,
        {
            let is_hidden = grid.is_hidden(row, col);
            if is_hidden {
                proof {
                    assert(!found_before((row, col), grid@, robot, distance, row as int, col as int));
                    lemma_push_fresh(tiles@, (row, col));
                }
                tiles.push((row, col));
            }
            assert forall|p: Position|
                tiles@.contains(p) <==> found_before(
                    p,
                    grid@,
                    robot,
                    distance,
                    row as int,
                    col + 1,
                ) by {
                assert(found_before(p, grid@, robot, distance, row as int, col + 1) <==> (
                found_before(p, grid@, robot, distance, row as int, col as int) || (p == (row, col)
                    && is_hidden)));
            }
            col += 1;
        }
        assert forall|p: Position|
            tiles@.contains(p) <==> found_before(
                p,
                grid@,
                robot,
                distance,
                row + 1,
                first.1 as int,
            ) by {
            assert(found_before(p, grid@, robot, distance, row + 1, first.1 as int)
                <==> found_before(p, grid@, robot, distance, row as int, last.1 + 1));
        }
        row += 1;
    }
    assert forall|p: Position| #[trigger]
        tiles@.contains(p) <==> candidates(grid@, robot, distance).contains(p) by {
        assert(found_before(p, grid@, robot, distance, row as int, first.1 as int) <==> (in_region(
            p,
            robot,
            distance,
            size,
        ) && hidden(grid@, p)));
    }
    tiles
}

/// Lists the tiles that an illumination of the given `distance` discovers one by one
/// on this map, in the order in which it discovers them: every hidden tile of the
/// square around `robot`, the nearest first.
pub fn tiles_to_reveal(grid: &Grid, robot: (usize, usize), distance: usize) -> (order: Vec<
    (usize, usize),
>)
    requires
        inside(grid@, robot),
    ensures
        lists_in_order(order@, candidates(grid@, robot, distance), robot),
        order@ == reveal_order(grid@, robot, distance),
{
    let tiles = hidden_tiles(grid, robot, distance);
    proof {
        use_type_invariant(grid);
        lemma_side_fits(grid@);
        assert forall|i: int| 0 <= i < tiles.len() implies distance_squared(
            #[trigger] tiles@[i],
            robot,
        ) <= usize::MAX by {
            assert(tiles@.contains(tiles@[i]));
            lemma_region_inside(tiles@[i], robot, distance, grid@.len() as usize);
            lemma_within_reach(grid@, robot, tiles@[i]);
        }
    }
    let order = sort_tiles(&tiles, robot);
    proof {
        tiles@.lemma_multiset_has_no_duplicates();
        order@.lemma_multiset_has_no_duplicates_conv();
        assert forall|p: Position| #[trigger]
            order@.contains(p) <==> candidates(grid@, robot, distance).contains(p) by {
            to_multiset_contains(order@, p);
            to_multiset_contains(tiles@, p);
        }
        assert forall|i: int, j: int| 0 <= i < j < order.len() implies reveals_before(
            robot,
            #[trigger] order@[i],
            #[trigger] order@[j],
        ) by {
            lemma_order_total(robot, order@[i], order@[j]);
        }
        lemma_reveal_order(grid@, robot, distance);
        lemma_order_unique(
            order@,
            reveal_order(grid@, robot, distance),
            candidates(grid@, robot, distance),
            robot,
        );
    }
    order
}

/// Tiles are discovered nearest first: no tile is nearer to the robot than a tile
/// that is discovered before it.
pub proof fn lemma_nearest_first(cells: Seq<Seq<bool>>, robot: Position, distance: usize)
    requires
        is_grid(cells),
    ensures
        forall|i: int, j: int|
            0 <= i < j < reveal_order(cells, robot, distance).len() ==> distance_squared(
                #[trigger] reveal_order(cells, robot, distance)[i],
                robot,
            ) <= distance_squared(#[trigger] reveal_order(cells, robot, distance)[j], robot),
{
    lemma_reveal_order(cells, robot, distance);
    let order = reveal_order(cells, robot, distance);
    assert forall|i: int, j: int| 0 <= i < j < order.len() implies distance_squared(
        #[trigger] order[i],
        robot,
    ) <= distance_squared(#[trigger] order[j], robot) by {
        assert(reveals_before(robot, order[i], order[j]));
    }
}

/// Once the candidates are discovered, the whole square is: no tile of it is hidden.
pub proof fn lemma_region_discovered(cells: Seq<Seq<bool>>, robot: Position, distance: usize)
    requires
        is_grid(cells),
    ensures
        forall|p: Position|
            in_region(p, robot, distance, cells.len() as usize) ==> !hidden(
                discover_all(cells, reveal_order(cells, robot, distance)),
                p,
            ),
{
    lemma_reveal_order(cells, robot, distance);
    lemma_discover_all(cells, reveal_order(cells, robot, distance));
    assert forall|p: Position| in_region(p, robot, distance, cells.len() as usize) implies !hidden(
        discover_all(cells, reveal_order(cells, robot, distance)),
        p,
    ) by {
        if hidden(cells, p) {
            assert(candidates(cells, robot, distance).contains(p));
        }
    }
}

/// Once the candidates are discovered, and as long as no tile is hidden again, no
/// candidate is left: a second illumination with the same robot and distance finds
/// nothing to discover.
pub proof fn lemma_nothing_left(
    cells: Seq<Seq<bool>>,
    later: Seq<Seq<bool>>,
    robot: Position,
    distance: usize,
)
    requires
        is_grid(cells),
        is_grid(later),
        later.len() == cells.len(),
        forall|p: Position|
            hidden(later, p) ==> hidden(
                discover_all(cells, reveal_order(cells, robot, distance)),
                p,
            ),
    ensures
        reveal_order(later, robot, distance).len() == 0,
{
    lemma_region_discovered(cells, robot, distance);
    lemma_reveal_order(later, robot, distance);
    let again = reveal_order(later, robot, distance);
    if again.len() > 0 {
        assert(again.contains(again[0]));
        assert(candidates(later, robot, distance).contains(again[0]));
    }
}

} // verus!
