//! The price of looking along a row or column and of discovering single tiles.
//!
//! An illumination first looks from the robot in the four directions and then
//! discovers, one by one, the tiles of the square that no directional view passes
//! over. Its price is the sum of the two.

use crate::bounds::{
    bottom_right_corner, get_bottom_right_corner, get_up_left_corner, in_region,
    lemma_corners_ordered, lemma_push_fresh, lemma_region_finite, lemma_region_grows, read_before,
    region, up_left_corner, Position,
};
use crate::grid::{inside, is_grid, is_hidden_in, lemma_side_fits, Grid};
use vstd::math::min;
use vstd::prelude::*;
use vstd::seq_lib::seq_to_set_is_finite;
use vstd::set_lib::lemma_len_subset;

verus! {

/// What each tile of a directional view costs once the view is longer than one tile.
pub const VIEW_TILE_COST: usize = 3;

/// What it costs to discover one tile that is not discovered yet.
pub const DISCOVER_TILE_COST: usize = 3;

/// The price of a directional view of the given length: nothing up to one tile, since
/// the robot sees that far anyway, and `VIEW_TILE_COST` per tile beyond that.
pub open spec fn view_cost(distance: nat) -> nat {
    if distance <= 1 {
        0
    } else {
        distance * VIEW_TILE_COST as nat
    }
}

/// How many entries of `tiles` name a hidden tile of `cells`. An entry that is listed
/// twice counts twice.
pub open spec fn hidden_count(cells: Seq<Seq<bool>>, tiles: Seq<Position>) -> nat {
    tiles.filter(is_hidden_in(cells)).len()
}

/// The price of the four directional views from `robot`, each as long as `distance`
/// unless the edge of a grid of side `size` comes first.
pub open spec fn scan_cost(size: nat, robot: Position, distance: usize) -> nat {
    view_cost(min(distance as int, robot.0 as int) as nat)
        + view_cost(min(distance as int, robot.1 as int) as nat)
        + view_cost(min(distance as int, size - 1 - robot.0) as nat)
        + view_cost(min(distance as int, size - 1 - robot.1) as nat)
}

/// Whether `p` is in neither the robot's row nor its column, where the directional
/// views pass.
pub open spec fn off_cross(p: Position, robot: Position) -> bool {
    p.0 != robot.0 && p.1 != robot.1
}

/// The tiles of the square around `robot` that no directional view passes over.
pub open spec fn interior(robot: Position, distance: usize, size: usize) -> Set<Position> {
    Set::new(|p: Position| in_region(p, robot, distance, size) && off_cross(p, robot))
}

/// The hidden tiles among the `interior` of the square around `robot`.
pub open spec fn hidden_interior(
    cells: Seq<Seq<bool>>,
    robot: Position,
    distance: usize,
) -> Set<Position> {
    interior(robot, distance, cells.len() as usize).filter(is_hidden_in(cells))
}

/// The price of illuminating the square of the given `distance` around `robot`: the
/// four directional views, and `DISCOVER_TILE_COST` for each hidden tile that they
/// do not pass over.
pub open spec fn illuminate_cost(cells: Seq<Seq<bool>>, robot: Position, distance: usize) -> nat {
    scan_cost(cells.len(), robot, distance) + DISCOVER_TILE_COST as nat * hidden_interior(
        cells,
        robot,
        distance,
    ).len()
}

/// Returns the price of a directional view of length `distance`.
pub fn calculate_view_cost(distance: usize) -> (cost: usize)
    requires
        view_cost(distance as nat) <= usize::MAX,
    ensures
        cost == view_cost(distance as nat),
{
    if distance <= 1 {
        0
    } else {
        distance * VIEW_TILE_COST
    }
}

/// Returns the price of discovering the listed tiles: `DISCOVER_TILE_COST` for each
/// entry that names a tile of `map` which is not discovered yet, nothing for the others.
pub fn calculate_discover_tiles_cost(map: &Grid, tiles: Vec<(usize, usize)>) -> (cost: usize)
    requires
        DISCOVER_TILE_COST * hidden_count(map@, tiles@) <= usize::MAX,
    ensures
        cost == DISCOVER_TILE_COST * hidden_count(map@, tiles@),
{
    let mut ret: usize = 0;
    let mut i: usize = 0;
    while i < tiles.len()
        invariant
            i <= tiles.len(),
            ret == hidden_count(map@, tiles@.take(i as int)),
            ret <= i,
        decreases tiles.len() - i,
    {
        let (row, col) = tiles[i];
        proof {
            assert(tiles@.take(i + 1) =~= tiles@.take(i as int).push(tiles@[i as int]));
            tiles@.take(i as int).lemma_filter_push(tiles@[i as int], is_hidden_in(map@));
        }
        if map.is_hidden(row, col) {
            ret += 1;
        }
        i += 1;
    }
    assert(tiles@.take(i as int) =~= tiles@);
    ret * DISCOVER_TILE_COST
}

/// How many of the rows (or columns) from `first` up to, but without, `at` are not the
/// robot's own.
spec fn lines_before(at: int, first: int, own: int) -> int {
    at - first - if at > own {
        1int
    } else {
        0int
    }
}

/// Whether `p` is a tile of the interior that comes before `(row, col)` when the
/// square is read row by row.
spec fn listed_before(
    p: Position,
    robot: Position,
    distance: usize,
    size: usize,
    row: int,
    col: int,
) -> bool {
    off_cross(p, robot) && read_before(p, robot, distance, size, row, col)
}

/// The tiles of the interior that come before `(row, col)` when the square is read
/// row by row.
spec fn interior_before(
    robot: Position,
    distance: usize,
    size: usize,
    row: int,
    col: int,
) -> Set<Position> {
    Set::new(|p: Position| listed_before(p, robot, distance, size, row, col))
}

/// Before `(row, col)` the interior has at most as many tiles as the rows read so far
/// hold outside the robot's column, the robot's own row left out.
proof fn lemma_interior_before(robot: Position, distance: usize, size: usize, row: int, col: int)
    requires
        robot.0 < size,
        robot.1 < size,
        up_left_corner(robot.0, robot.1, distance).0 <= row <= bottom_right_corner(
            robot.0,
            robot.1,
            distance,
            size,
        ).0,
        up_left_corner(robot.0, robot.1, distance).1 <= col <= bottom_right_corner(
            robot.0,
            robot.1,
            distance,
            size,
        ).1 + 1,
    ensures
        interior_before(robot, distance, size, row, col).finite(),
        ({
            let first = up_left_corner(robot.0, robot.1, distance);
            let last = bottom_right_corner(robot.0, robot.1, distance, size);
            interior_before(robot, distance, size, row, col).len() <= lines_before(
                row,
                first.0 as int,
                robot.0 as int,
            ) * (last.1 - first.1) + if row == robot.0 {
                0
            } else {
                lines_before(col, first.1 as int, robot.1 as int)
            }
        }),
    decreases row, col,
{
    let first = up_left_corner(robot.0, robot.1, distance);
    let last = bottom_right_corner(robot.0, robot.1, distance, size);
    let width = last.1 - first.1;
    let here = interior_before(robot, distance, size, row, col);
    lemma_corners_ordered(robot, distance, size);
    if col > first.1 {
        lemma_interior_before(robot, distance, size, row, col - 1);
        let before = interior_before(robot, distance, size, row, col - 1);
        let tile = (row as usize, (col - 1) as usize);
        if off_cross(tile, robot) {
            assert(here =~= before.insert(tile));
        } else {
            assert(here =~= before);
        }
    } else if row > first.0 {
        lemma_interior_before(robot, distance, size, row - 1, last.1 + 1);
        assert(here =~= interior_before(robot, distance, size, row - 1, last.1 + 1));
        let rows = lines_before(row - 1, first.0 as int, robot.0 as int);
        assert(rows * width + width == (rows + 1) * width) by (nonlinear_arith);
    } else {
        assert(here =~= Set::empty());
        assert(lines_before(row, first.0 as int, robot.0 as int) * width == 0) by (nonlinear_arith)
            requires
                lines_before(row, first.0 as int, robot.0 as int) == 0,
        ;
    }
}

/// On every grid the price of an illumination fits in `usize`: the views and the
/// interior tiles of a square are together fewer than the tiles of the grid.
pub proof fn lemma_cost_fits(cells: Seq<Seq<bool>>, robot: Position, distance: usize)
    requires
        is_grid(cells),
        inside(cells, robot),
    ensures
        illuminate_cost(cells, robot, distance) <= usize::MAX,
{
    lemma_side_fits(cells);
    let size = cells.len() as usize;
    let first = up_left_corner(robot.0, robot.1, distance);
    let last = bottom_right_corner(robot.0, robot.1, distance, size);
    let rows = last.0 - first.0;
    let cols = last.1 - first.1;
    lemma_corners_ordered(robot, distance, size);
    lemma_interior_before(robot, distance, size, last.0 as int, last.1 + 1);
    let counted = interior_before(robot, distance, size, last.0 as int, last.1 + 1);
    assert(interior(robot, distance, size) =~= counted);
    lemma_len_subset(hidden_interior(cells, robot, distance), interior(robot, distance, size));
    let hidden = hidden_interior(cells, robot, distance).len();
    assert(scan_cost(cells.len(), robot, distance) <= 3 * rows + 3 * cols);
    assert(3 * rows + 3 * cols + 3 * hidden <= 3 * size * size) by (nonlinear_arith)
        requires
            0 <= rows < size,
            0 <= cols < size,
            0 <= hidden <= lines_before(last.0 as int, first.0 as int, robot.0 as int) * cols + (
            if last.0 == robot.0 {
                0
            } else {
                lines_before(last.1 + 1, first.1 as int, robot.1 as int)
            }),
            lines_before(last.0 as int, first.0 as int, robot.0 as int) + (if last.0 == robot.0 {
                0int
            } else {
                1int
            }) == rows,
            lines_before(last.1 + 1, first.1 as int, robot.1 as int) == cols,
    ;
}

/// Lists the tiles of the square around `robot` that lie in neither its row nor its
/// column, each once.
pub(crate) fn interior_tiles(robot: Position, distance: usize, size: usize) -> (tiles: Vec<Position>)
    requires
        robot.0 < size,
        robot.1 < size,
    ensures
        tiles@.no_duplicates(),
        tiles@.to_set() == interior(robot, distance, size),
{
    let first = get_up_left_corner(robot.0, robot.1, distance);
    let last = get_bottom_right_corner(robot.0, robot.1, distance, size);
    proof {
        lemma_corners_ordered(robot, distance, size);
    }
    let mut tiles: Vec<Position> = Vec::new();
    let mut row: usize = first.0;
    while row <= last.0
        invariant
            first == up_left_corner(robot.0, robot.1, distance),
            last == bottom_right_corner(robot.0, robot.1, distance, size),
            first.0 <= robot.0 <= last.0 < size,
            first.1 <= robot.1 <= last.1 < size,
            first.0 <= row <= last.0 + 1,
            tiles@.no_duplicates(),
            forall|p: Position|
                tiles@.contains(p) <==> listed_before(
                    p,
                    robot,
                    distance,
                    size,
                    row as int,
                    first.1 as int,
                ),
        decreases last.0 + 1 - row,
    {
        if row != robot.0 {
            let mut col: usize = first.1;
            while col <= last.1
                invariant
                    first == up_left_corner(robot.0, robot.1, distance),
                    last == bottom_right_corner(robot.0, robot.1, distance, size),
                    first.0 <= robot.0 <= last.0 < size,
                    first.1 <= robot.1 <= last.1 < size,
                    first.0 <= row <= last.0,
                    row != robot.0,
                    first.1 <= col <= last.1 + 1,
                    tiles@.no_duplicates(),
                    forall|p: Position|
                        tiles@.contains(p) <==> listed_before(
                            p,
                            robot,
                            distance,
                            size,
                            row as int,
                            col as int,
                        ),
                decreases last.1 + 1 - col,
            {
                if col != robot.1 {
                    proof {
                        assert(!listed_before((row, col), robot, distance, size, row as int, col as int));
                        lemma_push_fresh(tiles@, (row, col));
                    }
                    tiles.push((row, col));
                }
                assert forall|p: Position|
                    tiles@.contains(p) <==> listed_before(
                        p,
                        robot,
                        distance,
                        size,
                        row as int,
                        col + 1,
                    ) by {
                    assert(listed_before(p, robot, distance, size, row as int, col + 1) <==> (
                    listed_before(p, robot, distance, size, row as int, col as int) || (p == (
                        row,
                        col,
                    ) && col != robot.1)));
                }
                col += 1;
            }
        }
        assert forall|p: Position|
            tiles@.contains(p) <==> listed_before(
                p,
                robot,
                distance,
                size,
                row + 1,
                first.1 as int,
            ) by {
            assert(listed_before(p, robot, distance, size, row + 1, first.1 as int)
                <==> listed_before(p, robot, distance, size, row as int, last.1 + 1));
            assert(row == robot.0 ==> (listed_before(
                p,
                robot,
                distance,
                size,
                row as int,
                last.1 + 1,
            ) <==> listed_before(p, robot, distance, size, row as int, first.1 as int)));
        }
        row += 1;
    }
    assert forall|p: Position| tiles@.to_set().contains(p) <==> interior(
        robot,
        distance,
        size,
    ).contains(p) by {
        assert(listed_before(p, robot, distance, size, row as int, first.1 as int) <==> (in_region(
            p,
            robot,
            distance,
            size,
        ) && off_cross(p, robot)));
    }
    assert(tiles@.to_set() =~= interior(robot, distance, size));
    tiles
}

/// The interior of a square holds finitely many tiles, and so does any part of it.
pub proof fn lemma_interior_finite(cells: Seq<Seq<bool>>, robot: Position, distance: usize)
    requires
        is_grid(cells),
    ensures
        interior(robot, distance, cells.len() as usize).finite(),
        hidden_interior(cells, robot, distance).finite(),
{
    lemma_side_fits(cells);
    let size = cells.len() as usize;
    lemma_region_finite(robot, distance, size);
    lemma_len_subset(interior(robot, distance, size), region(robot, distance, size));
    lemma_len_subset(hidden_interior(cells, robot, distance), interior(robot, distance, size));
}

/// Of a listing without repetitions, as many entries are hidden as the set of the
/// listed tiles has hidden members.
pub proof fn lemma_hidden_count_of_listing(cells: Seq<Seq<bool>>, tiles: Seq<Position>)
    requires
        tiles.no_duplicates(),
    ensures
        hidden_count(cells, tiles) == tiles.to_set().filter(is_hidden_in(cells)).len(),
    decreases tiles.len(),
{
    let pred = is_hidden_in(cells);
    if tiles.len() == 0 {
        tiles.lemma_filter_len(pred);
        assert(tiles.to_set().filter(pred) =~= Set::empty());
    } else {
        let rest = tiles.drop_last();
        let last = tiles.last();
        assert(tiles =~= rest.push(last));
        rest.lemma_filter_push(last, pred);
        rest.lemma_push_to_set_commute(last);
        lemma_hidden_count_of_listing(cells, rest);
        seq_to_set_is_finite(rest);
        rest.to_set().lemma_len_filter(pred);
        assert(!rest.to_set().contains(last)) by {
            if rest.contains(last) {
                let i = choose|i: int| 0 <= i < rest.len() && rest[i] == last;
                assert(tiles[i] == tiles[tiles.len() - 1]);
            }
        }
        if pred(last) {
            assert(tiles.to_set().filter(pred) =~= rest.to_set().filter(pred).insert(last));
        } else {
            assert(tiles.to_set().filter(pred) =~= rest.to_set().filter(pred));
        }
    }
}

/// For a fixed map and a fixed robot, a larger distance never makes the illumination
/// cheaper.
pub proof fn lemma_cost_monotonic(
    cells: Seq<Seq<bool>>,
    robot: Position,
    smaller: usize,
    larger: usize,
)
    requires
        is_grid(cells),
        inside(cells, robot),
        smaller <= larger,
    ensures
        illuminate_cost(cells, robot, smaller) <= illuminate_cost(cells, robot, larger),
{
    lemma_side_fits(cells);
    let size = cells.len() as usize;
    let near = hidden_interior(cells, robot, smaller);
    let far = hidden_interior(cells, robot, larger);
    assert forall|p: Position| near.contains(p) implies far.contains(p) by {
        lemma_region_grows(p, robot, smaller, larger, size);
    }
    lemma_interior_finite(cells, robot, larger);
    lemma_len_subset(near, far);
    assert(scan_cost(cells.len(), robot, smaller) <= scan_cost(cells.len(), robot, larger));
    assert(DISCOVER_TILE_COST as nat * near.len() <= DISCOVER_TILE_COST as nat * far.len())
        by (nonlinear_arith)
        requires
            near.len() <= far.len(),
    ;
}

} // verus!
