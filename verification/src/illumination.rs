//! An illumination, step by step.
//!
//! The library never touches the world. It tells its caller what to do next, the
//! caller does it and reports what came of it, and the library decides how to go on.
//!
//! An illumination first reads the map and clamps its distance to the side of the
//! map. With a distance of zero it is done. With a distance of one it lets the robot
//! look around, which costs nothing, and is done. With a larger distance it reads the
//! map again to estimate its price, looks to the right, down, to the left and up,
//! reads the map a third time and has the tiles of the square that are still hidden
//! discovered one by one, the nearest first.
//!
//! Whenever the map cannot be read, the illumination ends with
//! `SpotlightError::MapUnavailable`. A view or a discovery that fails ends it at once,
//! and what was revealed until then stays revealed: nothing is undone and nothing is
//! tried again.

use crate::bounds::{in_region, Position};
use crate::cost::{illuminate_cost, view_cost, DISCOVER_TILE_COST};
use crate::error::{Direction, SpotlightError};
use crate::grid::{discover_all, hidden, inside, is_grid, Grid};
use crate::order::distance_squared;
use crate::plan::{
    candidates, lemma_nearest_first, lemma_nothing_left, lemma_region_discovered,
    lemma_reveal_order, lists_in_order, reveal_order, tiles_to_reveal,
};
use crate::spotlight::Spotlight;
use vstd::prelude::*;

verus! {

/// What the caller is asked to do next.
#[derive(Clone, Copy, Debug, PartialEq, Eq)]
pub enum Action {
    /// Read the robot's map and report it with `Event::Snapshot`.
    ReadMap,
    /// Let the robot look at the tiles right around it, then report with
    /// `Event::Outcome`.
    LookAround,
    /// Let the robot look that many tiles far in that direction, then report with
    /// `Event::Outcome`.
    Look(Direction, usize),
    /// Have that one tile discovered, then report with `Event::Outcome`.
    Discover(Position),
    /// Do nothing more: the illumination has ended, with that result.
    Finish(Result<(), SpotlightError>),
}

/// What the caller reports.
#[derive(Debug)]
pub enum Event {
    /// The map as the robot sees it now, or nothing where it cannot be read.
    Snapshot(Option<Grid>),
    /// Whether the action asked for was carried out.
    Outcome(bool),
}

/// How far an illumination has come.
pub enum Phase {
    /// Waiting for the first reading of the map.
    MapCheck,
    /// Waiting for the robot to have looked around.
    LocalView,
    /// Waiting for the map on which the price is estimated.
    CostCheck,
    /// Waiting for the view in that direction.
    Scan(Direction),
    /// Waiting for the map as it is after the four views.
    Recompute,
    /// Waiting for the first of those tiles to be discovered; the others follow.
    Reveal(Seq<Position>),
    /// Ended, with that result.
    Done(Result<(), SpotlightError>),
}

/// An illumination as the contracts see it.
pub struct Course {
    /// Where the robot stood when the illumination began.
    pub robot: Position,
    /// The distance asked for; once the map has been read, at most the side of the map.
    pub distance: usize,
    /// The estimated price, once there is one. Nothing depends on it.
    pub estimate: Option<nat>,
    pub phase: Phase,
}

/// An illumination that has not read the map yet.
pub open spec fn begin(robot: Position, distance: usize) -> Course {
    Course { robot, distance, estimate: None, phase: Phase::MapCheck }
}

/// The direction of the view that follows the view in `direction`, if one follows.
pub open spec fn following(direction: Direction) -> Option<Direction> {
    match direction {
        Direction::Right => Some(Direction::Down),
        Direction::Down => Some(Direction::Left),
        Direction::Left => Some(Direction::Up),
        Direction::Up => None,
    }
}

/// The same illumination in another phase.
pub open spec fn moved(course: Course, phase: Phase) -> Course {
    Course { phase, ..course }
}

/// How an illumination goes on when the map is reported. A report that was not asked
/// for changes nothing.
pub open spec fn on_map(course: Course, map: Option<Seq<Seq<bool>>>) -> Course {
    match course.phase {
        Phase::MapCheck => match map {
            None => moved(course, Phase::Done(Err(SpotlightError::MapUnavailable))),
            Some(cells) => {
                let distance = if course.distance < cells.len() {
                    course.distance
                } else {
                    cells.len() as usize
                };
                let clamped = Course { distance, ..course };
                if distance == 0 {
                    moved(clamped, Phase::Done(Ok(())))
                } else if distance == 1 {
                    moved(clamped, Phase::LocalView)
                } else {
                    moved(clamped, Phase::CostCheck)
                }
            },
        },
        Phase::CostCheck => match map {
            None => moved(course, Phase::Done(Err(SpotlightError::MapUnavailable))),
            Some(cells) => Course {
                estimate: Some(illuminate_cost(cells, course.robot, course.distance)),
                phase: Phase::Scan(Direction::Right),
                ..course
            },
        },
        Phase::Recompute => match map {
            None => moved(course, Phase::Done(Err(SpotlightError::MapUnavailable))),
            Some(cells) => {
                let order = reveal_order(cells, course.robot, course.distance);
                if order.len() == 0 {
                    moved(course, Phase::Done(Ok(())))
                } else {
                    moved(course, Phase::Reveal(order))
                }
            },
        },
        _ => course,
    }
}

/// How an illumination goes on when it is reported whether the last action was
/// carried out. A report that was not asked for changes nothing.
pub open spec fn on_outcome(course: Course, done: bool) -> Course {
    match course.phase {
        Phase::LocalView => moved(course, Phase::Done(Ok(()))),
        Phase::Scan(direction) => if !done {
            moved(course, Phase::Done(Err(SpotlightError::ScanFailed(direction))))
        } else {
            match following(direction) {
                Some(next) => moved(course, Phase::Scan(next)),
                None => moved(course, Phase::Recompute),
            }
        },
        Phase::Reveal(tiles) => if tiles.len() == 0 {
            moved(course, Phase::Done(Ok(())))
        } else if !done {
            moved(course, Phase::Done(Err(SpotlightError::DiscoverFailed(tiles[0]))))
        } else if tiles.len() == 1 {
            moved(course, Phase::Done(Ok(())))
        } else {
            moved(course, Phase::Reveal(tiles.drop_first()))
        },
        _ => course,
    }
}

/// How an illumination goes on when `event` is reported.
pub open spec fn advance(course: Course, event: Event) -> Course {
    match event {
        Event::Snapshot(None) => on_map(course, None),
        Event::Snapshot(Some(grid)) => on_map(course, Some(grid@)),
        Event::Outcome(done) => on_outcome(course, done),
    }
}

/// What an illumination asks of its caller.
pub open spec fn request(course: Course) -> Action {
    match course.phase {
        Phase::MapCheck => Action::ReadMap,
        Phase::LocalView => Action::LookAround,
        Phase::CostCheck => Action::ReadMap,
        Phase::Scan(direction) => Action::Look(direction, course.distance),
        Phase::Recompute => Action::ReadMap,
        Phase::Reveal(tiles) => if tiles.len() == 0 {
            Action::Finish(Ok(()))
        } else {
            Action::Discover(tiles[0])
        },
        Phase::Done(result) => Action::Finish(result),
    }
}

/// What it costs the robot to carry out `action`: a view has the price of its length,
/// a discovery the price of one tile, and reading the map or looking around is free.
pub open spec fn price(action: Action) -> nat {
    match action {
        Action::Look(_, length) => view_cost(length as nat),
        Action::Discover(_) => DISCOVER_TILE_COST as nat,
        _ => 0,
    }
}

/// The illumination after `count` actions in a row were carried out.
pub open spec fn after_successes(course: Course, count: nat) -> Course
    decreases count,
{
    if count == 0 {
        course
    } else {
        on_outcome(after_successes(course, (count - 1) as nat), true)
    }
}

/// The phase of a running illumination. The tiles of a `Reveal` are kept beside it.
#[derive(Clone, Copy, Debug)]
enum Stage {
    MapCheck,
    LocalView,
    CostCheck,
    Scan(Direction),
    Recompute,
    Reveal,
    Done(Result<(), SpotlightError>),
}

/// A running illumination: what has been decided so far, and what is awaited.
#[derive(Debug)]
pub struct Illumination {
    robot: Position,
    distance: usize,
    estimate: Option<usize>,
    stage: Stage,
    /// The tiles to discover, in order. Empty until the map has been read after the
    /// four views.
    queue: Vec<Position>,
    /// How many tiles of `queue` have been discovered.
    next: usize,
}

impl View for Illumination {
    type V = Course;

    closed spec fn view(&self) -> Course {
        Course {
            robot: self.robot,
            distance: self.distance,
            estimate: match self.estimate {
                Some(cost) => Some(cost as nat),
                None => None,
            },
            phase: match self.stage {
                Stage::MapCheck => Phase::MapCheck,
                Stage::LocalView => Phase::LocalView,
                Stage::CostCheck => Phase::CostCheck,
                Stage::Scan(direction) => Phase::Scan(direction),
                Stage::Recompute => Phase::Recompute,
                Stage::Reveal => Phase::Reveal(self.queue@.skip(self.next as int)),
                Stage::Done(result) => Phase::Done(result),
            },
        }
    }
}

impl Illumination {
    /// While tiles are being discovered, one of them is awaited.
    #[verifier::type_invariant]
    spec fn well_formed(&self) -> bool {
        self.stage is Reveal ==> self.next < self.queue@.len()
    }

    /// Begins an illumination of the square of the given `distance` around `robot`.
    /// Its first request is to read the map.
    pub fn new(robot: (usize, usize), distance: usize) -> (state: Illumination)
        ensures
            state@ == begin(robot, distance),
    {
        Illumination {
            robot,
            distance,
            estimate: None,
            stage: Stage::MapCheck,
            queue: Vec::new(),
            next: 0,
        }
    }

    /// What this illumination asks of its caller.
    pub fn request(&self) -> (action: Action)
        ensures
            action == request(self@),
    {
        proof {
            use_type_invariant(self);
        }
        match self.stage {
            Stage::MapCheck => Action::ReadMap,
            Stage::LocalView => Action::LookAround,
            Stage::CostCheck => Action::ReadMap,
            Stage::Scan(direction) => Action::Look(direction, self.distance),
            Stage::Recompute => Action::ReadMap,
            Stage::Reveal => Action::Discover(self.queue[self.next]),
            Stage::Done(result) => Action::Finish(result),
        }
    }

    /// Where the robot stood when this illumination began.
    pub fn robot(&self) -> (robot: (usize, usize))
        ensures
            robot == self@.robot,
    {
        self.robot
    }

    /// The distance of this illumination: the one asked for until the map has been
    /// read, from then on at most the side of the map.
    pub fn distance(&self) -> (distance: usize)
        ensures
            distance == self@.distance,
    {
        self.distance
    }

    /// The estimated price of this illumination, once the map has been read for it.
    pub fn estimate(&self) -> (estimate: Option<usize>)
        ensures
            estimate is None <==> self@.estimate is None,
            estimate matches Some(cost) ==> self@.estimate == Some(cost as nat),
    {
        self.estimate
    }
}

impl Spotlight {
    /// Takes an illumination one step further: given what the caller reports, decides
    /// how the illumination goes on and what the caller is to do next.
    ///
    /// An illumination discovers the tiles of the square around the robot. It begins
    /// with `Illumination::new`, whose first request is to read the map, and it has
    /// ended when the request is `Action::Finish`.
    pub fn illuminate(state: Illumination, event: Event) -> (next: (Illumination, Action))
        requires
            event matches Event::Snapshot(Some(grid)) ==> inside(grid@, state@.robot),
        ensures
            next.0@ == advance(state@, event),
            next.1 == request(next.0@),
    {
        proof {
            use_type_invariant(&state);
        }
        let Illumination { robot, distance, estimate, stage, queue, next } = state;
        assert(stage is Reveal ==> next < queue.len());
        let state = match event {
            Event::Snapshot(map) => match stage {
                Stage::MapCheck => match map {
                    None => Illumination {
                        robot,
                        distance,
                        estimate,
                        stage: Stage::Done(Err(SpotlightError::MapUnavailable)),
                        queue,
                        next,
                    },
                    Some(map) => {
                        let size = map.size();
                        let distance = if distance < size {
                            distance
                        } else {
                            size
                        };
                        let stage = if distance <= 1 {
                            if distance == 1 {
                                Stage::LocalView
                            } else {
                                Stage::Done(Ok(()))
                            }
                        } else {
                            Stage::CostCheck
                        };
                        Illumination { robot, distance, estimate, stage, queue, next }
                    },
                },
                Stage::CostCheck => match Spotlight::calculate_illuminate_cost(
                    map.as_ref(),
                    robot,
                    distance,
                ) {
                    Err(e) => Illumination {
                        robot,
                        distance,
                        estimate,
                        stage: Stage::Done(Err(e)),
                        queue,
                        next,
                    },
                    Ok(cost) => Illumination {
                        robot,
                        distance,
                        estimate: Some(cost),
                        stage: Stage::Scan(Direction::Right),
                        queue,
                        next,
                    },
                },
                Stage::Recompute => match map {
                    None => Illumination {
                        robot,
                        distance,
                        estimate,
                        stage: Stage::Done(Err(SpotlightError::MapUnavailable)),
                        queue,
                        next,
                    },
                    Some(map) => {
                        let tiles = tiles_to_reveal(&map, robot, distance);
                        if tiles.len() == 0 {
                            Illumination {
                                robot,
                                distance,
                                estimate,
                                stage: Stage::Done(Ok(())),
                                queue,
                                next,
                            }
                        } else {
                            assert(tiles@.skip(0) =~= tiles@);
                            Illumination {
                                robot,
                                distance,
                                estimate,
                                stage: Stage::Reveal,
                                queue: tiles,
                                next: 0,
                            }
                        }
                    },
                },
                _ => Illumination { robot, distance, estimate, stage, queue, next },
            },
            Event::Outcome(done) => match stage {
                Stage::LocalView => Illumination {
                    robot,
                    distance,
                    estimate,
                    stage: Stage::Done(Ok(())),
                    queue,
                    next,
                },
                Stage::Scan(direction) => {
                    let stage = if !done {
                        Stage::Done(Err(SpotlightError::ScanFailed(direction)))
                    } else {
                        match direction {
                            Direction::Right => Stage::Scan(Direction::Down),
                            Direction::Down => Stage::Scan(Direction::Left),
                            Direction::Left => Stage::Scan(Direction::Up),
                            Direction::Up => Stage::Recompute,
                        }
                    };
                    Illumination { robot, distance, estimate, stage, queue, next }
                },
                Stage::Reveal => {
                    if !done {
                        let tile = queue[next];
                        Illumination {
                            robot,
                            distance,
                            estimate,
                            stage: Stage::Done(Err(SpotlightError::DiscoverFailed(tile))),
                            queue,
                            next,
                        }
                    } else if next + 1 == queue.len() {
                        Illumination {
                            robot,
                            distance,
                            estimate,
                            stage: Stage::Done(Ok(())),
                            queue,
                            next,
                        }
                    } else {
                        assert(queue@.skip(next as int).drop_first() =~= queue@.skip(next + 1));
                        Illumination {
                            robot,
                            distance,
                            estimate,
                            stage: Stage::Reveal,
                            queue,
                            next: next + 1,
                        }
                    }
                },
                _ => Illumination { robot, distance, estimate, stage, queue, next },
            },
        };
        let action = state.request();
        (state, action)
    }
}

/// With a distance of at most one, clamped to the side of the map, an illumination
/// succeeds as soon as the map can be read. At most it lets the robot look around
/// once, and nothing that it asks for has a price.
pub proof fn lemma_short_distance(robot: Position, distance: usize, cells: Seq<Seq<bool>>)
    requires
        is_grid(cells),
        distance <= 1 || cells.len() <= 1,
    ensures
        ({
            let read = on_map(begin(robot, distance), Some(cells));
            &&& price(request(begin(robot, distance))) == 0
            &&& price(request(read)) == 0
            &&& read.distance == 0 ==> request(read) == Action::Finish(Ok(()))
            &&& read.distance == 1 ==> request(read) == Action::LookAround && forall|done: bool|
                request(#[trigger] on_outcome(read, done)) == Action::Finish(Ok(()))
            &&& read.distance <= 1
        }),
{
}

/// With a distance of two or more, clamped to the side of the map, and as long as
/// the map can be read and the views are carried out, an illumination reads the map
/// a second time and estimates its price on it, looks to the right, down, to the left
/// and up, each time as far as the clamped distance, and reads the map a third time.
/// If a view fails, the illumination ends with the direction of that view.
pub proof fn lemma_course_of_views(
    robot: Position,
    distance: usize,
    first: Seq<Seq<bool>>,
    second: Seq<Seq<bool>>,
)
    requires
        is_grid(first),
        distance >= 2,
        first.len() >= 2,
    ensures
        ({
            let clamped = if distance < first.len() {
                distance
            } else {
                first.len() as usize
            };
            let checked = on_map(begin(robot, distance), Some(first));
            let right = on_map(checked, Some(second));
            let down = on_outcome(right, true);
            let left = on_outcome(down, true);
            let up = on_outcome(left, true);
            let scanned = on_outcome(up, true);
            &&& request(begin(robot, distance)) == Action::ReadMap
            &&& request(checked) == Action::ReadMap
            &&& right.estimate == Some(illuminate_cost(second, robot, clamped))
            &&& request(right) == Action::Look(Direction::Right, clamped)
            &&& request(down) == Action::Look(Direction::Down, clamped)
            &&& request(left) == Action::Look(Direction::Left, clamped)
            &&& request(up) == Action::Look(Direction::Up, clamped)
            &&& request(scanned) == Action::ReadMap
            &&& scanned.phase == Phase::Recompute
            &&& scanned.robot == robot && scanned.distance == clamped
            &&& request(on_outcome(right, false)) == Action::Finish(
                Err(SpotlightError::ScanFailed(Direction::Right)),
            )
            &&& request(on_outcome(down, false)) == Action::Finish(
                Err(SpotlightError::ScanFailed(Direction::Down)),
            )
            &&& request(on_outcome(left, false)) == Action::Finish(
                Err(SpotlightError::ScanFailed(Direction::Left)),
            )
            &&& request(on_outcome(up, false)) == Action::Finish(
                Err(SpotlightError::ScanFailed(Direction::Up)),
            )
        }),
{
}

/// Whenever an illumination waits for the map and the map cannot be read, it ends
/// with `MapUnavailable`.
pub proof fn lemma_without_a_map(course: Course)
    requires
        request(course) == Action::ReadMap,
    ensures
        request(on_map(course, None)) == Action::Finish(Err(SpotlightError::MapUnavailable)),
{
}

/// An illumination that has ended stays as it is, whatever is reported.
pub proof fn lemma_ended(course: Course, map: Option<Seq<Seq<bool>>>, done: bool)
    requires
        course.phase is Done,
    ensures
        on_map(course, map) == course,
        on_outcome(course, done) == course,
{
}

/// As long as the discoveries are carried out, the tiles are asked for one by one in
/// the order in which they are listed, and after the last one the illumination ends
/// well. If a discovery fails, the illumination ends with the tile that failed.
pub proof fn lemma_discoveries_in_turn(course: Course, tiles: Seq<Position>, count: nat)
    requires
        course.phase == Phase::Reveal(tiles),
        tiles.len() > 0,
        count <= tiles.len(),
    ensures
        count < tiles.len() ==> after_successes(course, count).phase == Phase::Reveal(
            tiles.skip(count as int),
        ) && request(after_successes(course, count)) == Action::Discover(tiles[count as int])
            && request(on_outcome(after_successes(course, count), false)) == Action::Finish(
            Err(SpotlightError::DiscoverFailed(tiles[count as int])),
        ),
        count == tiles.len() ==> request(after_successes(course, count)) == Action::Finish(Ok(())),
    decreases count,
{
    if count == 0 {
        assert(tiles.skip(0) =~= tiles);
    } else {
        let before = (count - 1) as nat;
        lemma_discoveries_in_turn(course, tiles, before);
        let rest = tiles.skip(before as int);
        assert(rest.len() == tiles.len() - before);
        if count < tiles.len() {
            assert(rest.drop_first() =~= tiles.skip(count as int));
        }
    }
}

/// After the four views, where the map can be read and every discovery is carried
/// out, an illumination asks for the hidden tiles of the square and for no other
/// tile, one by one and each once, never for a tile that is nearer to the robot than
/// the one before, and then ends well. Once those tiles are discovered, no tile of
/// the square is hidden.
pub proof fn lemma_square_discovered(course: Course, cells: Seq<Seq<bool>>)
    requires
        course.phase == Phase::Recompute,
        is_grid(cells),
    ensures
        ({
            let order = reveal_order(cells, course.robot, course.distance);
            let read = on_map(course, Some(cells));
            &&& lists_in_order(order, candidates(cells, course.robot, course.distance), course.robot)
            &&& forall|i: int|
                0 <= i < order.len() ==> request(#[trigger] after_successes(read, i as nat))
                    == Action::Discover(order[i])
            &&& request(after_successes(read, order.len())) == Action::Finish(Ok(()))
            &&& forall|i: int, j: int|
                0 <= i < j < order.len() ==> distance_squared(#[trigger] order[i], course.robot)
                    <= distance_squared(#[trigger] order[j], course.robot)
            &&& forall|p: Position|
                in_region(p, course.robot, course.distance, cells.len() as usize) ==> !hidden(
                    discover_all(cells, order),
                    p,
                )
        }),
{
    let order = reveal_order(cells, course.robot, course.distance);
    let read = on_map(course, Some(cells));
    lemma_reveal_order(cells, course.robot, course.distance);
    lemma_nearest_first(cells, course.robot, course.distance);
    lemma_region_discovered(cells, course.robot, course.distance);
    if order.len() > 0 {
        assert forall|i: int| 0 <= i < order.len() implies request(
            #[trigger] after_successes(read, i as nat),
        ) == Action::Discover(order[i]) by {
            lemma_discoveries_in_turn(read, order, i as nat);
        }
        lemma_discoveries_in_turn(read, order, order.len());
    }
}

/// Where every tile that an illumination asked for has been discovered and no tile
/// has been hidden again since, a second illumination with the same robot and
/// distance asks for no discovery and ends well after its views.
pub proof fn lemma_second_illumination(course: Course, cells: Seq<Seq<bool>>, later: Seq<Seq<bool>>)
    requires
        course.phase == Phase::Recompute,
        is_grid(cells),
        is_grid(later),
        later.len() == cells.len(),
        forall|p: Position|
            hidden(later, p) ==> hidden(
                discover_all(cells, reveal_order(cells, course.robot, course.distance)),
                p,
            ),
    ensures
        request(on_map(course, Some(later))) == Action::Finish(Ok(())),
{
    lemma_nothing_left(cells, later, course.robot, course.distance);
}

} // verus!
