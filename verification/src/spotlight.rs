//! The tool itself, and the estimate of what an illumination costs.

use crate::bounds::Position;
use crate::cost::{
    calculate_discover_tiles_cost, calculate_view_cost, illuminate_cost, interior_tiles,
    lemma_cost_fits, lemma_hidden_count_of_listing,
};
use crate::error::SpotlightError;
use crate::grid::{inside, Grid};
use vstd::prelude::*;

verus! {

/// A tool that lights up the square area around the robot.
#[derive(Default)]
pub struct Spotlight {}

impl Spotlight {
    /// Estimates what it costs to illuminate the square of the given `distance` around
    /// `robot` on the given map. Nothing is changed by asking.
    ///
    /// Without a map there is no estimate. With one, the estimate is the price of the
    /// four directional views plus the price of discovering every hidden tile of the
    /// square that the views do not pass over.
    pub fn calculate_illuminate_cost(
        map: Option<&Grid>,
        robot: Position,
        distance: usize,
    ) -> (estimate: Result<usize, SpotlightError>)
        requires
            map matches Some(grid) ==> inside(grid@, robot),
        ensures
            map is None ==> estimate == Err::<usize, SpotlightError>(
                SpotlightError::MapUnavailable,
            ),
            map matches Some(grid) ==> estimate matches Ok(cost) && cost == illuminate_cost(
                grid@,
                robot,
                distance,
            ),
    {
        match map {
            None => Err(SpotlightError::MapUnavailable),
            Some(grid) => {
                let size = grid.size();
                let (robot_row, robot_col) = robot;
                proof {
                    lemma_cost_fits(grid@, robot, distance);
                }

                let up_distance = if distance < robot_row { distance } else { robot_row };
                let left_distance = if distance < robot_col { distance } else { robot_col };
                let down_room: usize = size - 1 - robot_row;
                let right_room: usize = size - 1 - robot_col;
                let down_distance = if distance < down_room { distance } else { down_room };
                let right_distance = if distance < right_room { distance } else { right_room };

                let mut ret: usize = 0;
                ret += calculate_view_cost(up_distance);
                ret += calculate_view_cost(left_distance);
                ret += calculate_view_cost(down_distance);
                ret += calculate_view_cost(right_distance);

                let tiles = interior_tiles(robot, distance, size);
                proof {
                    lemma_hidden_count_of_listing(grid@, tiles@);
                }
                ret += calculate_discover_tiles_cost(grid, tiles);

                Ok(ret)
            },
        }
    }
}

} // verus!
