//! The order in which hidden tiles are discovered.
//!
//! Tiles are discovered from the robot outwards: the nearer tile first, where near is
//! measured by the Euclidean distance. Of two tiles that are equally far the one in
//! the upper row goes first, and within a row the one further left. The library works
//! with the square of the distance, which orders tiles as the distance itself does and
//! stays within the integers.

use crate::bounds::Position;
use vstd::prelude::*;
use vstd::seq_lib::{lemma_multiset_commutative, to_multiset_build, to_multiset_contains};

verus! {

/// The square of the Euclidean distance between two tiles.
pub open spec fn distance_squared(a: Position, b: Position) -> int {
    (a.0 - b.0) * (a.0 - b.0) + (a.1 - b.1) * (a.1 - b.1)
}

/// Whether a robot at `robot` discovers `a` before `b`.
pub open spec fn reveals_before(robot: Position, a: Position, b: Position) -> bool {
    let to_a = distance_squared(a, robot);
    let to_b = distance_squared(b, robot);
    to_a < to_b || (to_a == to_b && (a.0 < b.0 || (a.0 == b.0 && a.1 < b.1)))
}

/// Whether no tile of `tiles` stands behind a tile that the robot discovers after it.
pub open spec fn in_reveal_order(tiles: Seq<Position>, robot: Position) -> bool {
    forall|i: int, j: int|
        0 <= i < j < tiles.len() ==> !reveals_before(robot, #[trigger] tiles[j], #[trigger] tiles[i])
}

/// Whether the distance from the robot to each of `tiles` has a square that fits in
/// `usize`.
pub open spec fn within_reach(tiles: Seq<Position>, robot: Position) -> bool {
    forall|i: int| 0 <= i < tiles.len() ==> distance_squared(#[trigger] tiles[i], robot) <= usize::MAX
}

/// No tile is discovered before itself, and of two tiles at most one is discovered
/// before the other.
pub proof fn lemma_order_asymmetric(robot: Position, a: Position, b: Position)
    ensures
        !reveals_before(robot, a, a),
        !(reveals_before(robot, a, b) && reveals_before(robot, b, a)),
{
}

/// Of two different tiles one is discovered before the other.
pub proof fn lemma_order_total(robot: Position, a: Position, b: Position)
    requires
        a != b,
    ensures
        reveals_before(robot, a, b) || reveals_before(robot, b, a),
{
}

/// What is discovered before a tile is discovered before every tile that comes after
/// that tile.
pub proof fn lemma_order_transitive(robot: Position, a: Position, b: Position, c: Position)
    ensures
        reveals_before(robot, a, b) && reveals_before(robot, b, c) ==> reveals_before(robot, a, c),
        !reveals_before(robot, b, a) && !reveals_before(robot, c, b) ==> !reveals_before(
            robot,
            c,
            a,
        ),
{
}

/// The difference of two coordinates, whichever is the larger.
fn gap(x: usize, y: usize) -> (gap: usize)
    ensures
        gap == if x >= y {
            x - y
        } else {
            y - x
        },
{
    if x >= y {
        x - y
    } else {
        y - x
    }
}

/// Returns the square of the Euclidean distance between two tiles.
pub fn calculate_distance(a: (usize, usize), b: (usize, usize)) -> (distance: usize)
    requires
        distance_squared(a, b) <= usize::MAX,
    ensures
        distance == distance_squared(a, b),
{
    let rows = gap(a.0, b.0);
    let cols = gap(a.1, b.1);
    assert(rows * rows == (a.0 - b.0) * (a.0 - b.0) && cols * cols == (a.1 - b.1) * (a.1 - b.1)
        && 0 <= rows * rows && 0 <= cols * cols) by (nonlinear_arith)
        requires
            rows == a.0 - b.0 || rows == b.0 - a.0,
            cols == a.1 - b.1 || cols == b.1 - a.1,
    ;
    rows * rows + cols * cols
}

/// Tells whether a robot at `robot` discovers `a` before `b`.
pub fn comes_before(robot: (usize, usize), a: (usize, usize), b: (usize, usize)) -> (answer: bool)
    requires
        distance_squared(a, robot) <= usize::MAX,
        distance_squared(b, robot) <= usize::MAX,
    ensures
        answer == reveals_before(robot, a, b),
{
    let a_distance = calculate_distance(a, robot);
    let b_distance = calculate_distance(b, robot);

    if a_distance != b_distance {
        a_distance < b_distance
    } else if a.0 != b.0 {
        a.0 < b.0
    } else {
        a.1 < b.1
    }
}

/// Copies the entries of `tiles` from `from` up to, but without, `to`.
fn copy_of(tiles: &Vec<Position>, from: usize, to: usize) -> (part: Vec<Position>)
    requires
        from <= to <= tiles.len(),
    ensures
        part@ == tiles@.subrange(from as int, to as int),
{
    let mut part: Vec<Position> = Vec::new();
    let mut at: usize = from;
    while at < to
        invariant
            from <= at <= to <= tiles.len(),
            part@ == tiles@.subrange(from as int, at as int),
        decreases to - at,
    {
        part.push(tiles[at]);
        assert(part@ =~= tiles@.subrange(from as int, at + 1));
        at += 1;
    }
    part
}

/// Merges two runs that are each in the order of discovery into one.
fn merge(left: &Vec<Position>, right: &Vec<Position>, robot: Position) -> (merged: Vec<Position>)
    requires
        in_reveal_order(left@, robot),
        in_reveal_order(right@, robot),
        within_reach(left@, robot),
        within_reach(right@, robot),
    ensures
        in_reveal_order(merged@, robot),
        merged@.to_multiset() == left@.to_multiset().add(right@.to_multiset()),
{
    let mut merged: Vec<Position> = Vec::new();
    let mut i: usize = 0;
    let mut j: usize = 0;
    proof {
        assert(merged@ =~= left@.take(0) + right@.take(0));
        lemma_multiset_commutative(left@.take(0), right@.take(0));
    }
    while i < left.len() || j < right.len()
        invariant
            i <= left.len(),
            j <= right.len(),
            in_reveal_order(left@, robot),
            in_reveal_order(right@, robot),
            within_reach(left@, robot),
            within_reach(right@, robot),
            in_reveal_order(merged@, robot),
            merged@.to_multiset() == left@.take(i as int).to_multiset().add(
                right@.take(j as int).to_multiset(),
            ),
            forall|k: int|
                0 <= k < merged.len() && i < left.len() ==> !reveals_before(
                    robot,
                    left@[i as int],
                    #[trigger] merged@[k],
                ),
            forall|k: int|
                0 <= k < merged.len() && j < right.len() ==> !reveals_before(
                    robot,
                    right@[j as int],
                    #[trigger] merged@[k],
                ),
        decreases left.len() - i + (right.len() - j),
    {
        let from_left = if i == left.len() {
            false
        } else if j == right.len() {
            true
        } else {
            !comes_before(robot, right[j], left[i])
        };
        let ghost before = merged@;
        if from_left {
            let next = left[i];
            merged.push(next);
            proof {
                to_multiset_build(before, next);
                to_multiset_build(left@.take(i as int), next);
                assert(left@.take(i + 1) =~= left@.take(i as int).push(next));
                assert forall|k: int| 0 <= k < merged.len() && i + 1 < left.len() implies
                    !reveals_before(robot, left@[i + 1], #[trigger] merged@[k]) by {
                    lemma_order_transitive(robot, merged@[k], next, left@[i + 1]);
                }
            }
            i += 1;
        } else {
            let next = right[j];
            merged.push(next);
            proof {
                to_multiset_build(before, next);
                to_multiset_build(right@.take(j as int), next);
                assert(right@.take(j + 1) =~= right@.take(j as int).push(next));
                assert forall|k: int| 0 <= k < merged.len() && j + 1 < right.len() implies
                    !reveals_before(robot, right@[j + 1], #[trigger] merged@[k]) by {
                    lemma_order_transitive(robot, merged@[k], next, right@[j + 1]);
                }
                if i < left.len() {
                    lemma_order_asymmetric(robot, next, left@[i as int]);
                }
            }
            j += 1;
        }
    }
    assert(left@.take(i as int) =~= left@);
    assert(right@.take(j as int) =~= right@);
    merged
}

/// Puts tiles into the order in which a robot at `robot` discovers them. A tile that
/// is listed more than once stays listed as often.
pub fn sort_tiles(tiles: &Vec<(usize, usize)>, robot: (usize, usize)) -> (sorted: Vec<(usize, usize)>)
    requires
        within_reach(tiles@, robot),
    ensures
        in_reveal_order(sorted@, robot),
        sorted@.to_multiset() == tiles@.to_multiset(),
    decreases tiles.len(),
{
    let len = tiles.len();
    if len <= 1 {
        let same = copy_of(tiles, 0, len);
        assert(same@ =~= tiles@);
        return same;
    }
    let mid: usize = len / 2;
    let left = copy_of(tiles, 0, mid);
    let right = copy_of(tiles, mid, len);
    proof {
        assert(tiles@ =~= left@ + right@);
        lemma_multiset_commutative(left@, right@);
    }
    let left = sort_tiles(&left, robot);
    let right = sort_tiles(&right, robot);
    proof {
        lemma_reach_kept(tiles@.subrange(0, mid as int), left@, robot);
        lemma_reach_kept(tiles@.subrange(mid as int, len as int), right@, robot);
    }
    merge(&left, &right, robot)
}

/// Tiles that are within reach stay so when they are listed in another order.
proof fn lemma_reach_kept(tiles: Seq<Position>, shuffled: Seq<Position>, robot: Position)
    requires
        within_reach(tiles, robot),
        shuffled.to_multiset() == tiles.to_multiset(),
    ensures
        within_reach(shuffled, robot),
{
    assert forall|i: int| 0 <= i < shuffled.len() implies distance_squared(
        #[trigger] shuffled[i],
        robot,
    ) <= usize::MAX by {
        let tile = shuffled[i];
        assert(shuffled.contains(tile));
        to_multiset_contains(shuffled, tile);
        to_multiset_contains(tiles, tile);
        let k = choose|k: int| 0 <= k < tiles.len() && tiles[k] == tile;
        assert(distance_squared(tiles[k], robot) <= usize::MAX);
    }
}

} // verus!
