//! The ways in which an illumination can fail.

use crate::bounds::Position;
use vstd::prelude::*;

verus! {

/// One of the four directions in which the robot can look along its row or column.
#[derive(Clone, Copy, Debug, PartialEq, Eq)]
pub enum Direction {
    Up,
    Down,
    Left,
    Right,
}

/// Why an illumination, or the estimate of its price, stopped.
#[derive(Clone, Copy, Debug, PartialEq, Eq)]
pub enum SpotlightError {
    /// The robot's map could not be read.
    MapUnavailable,
    /// The view in this direction failed. The views before it stand.
    ScanFailed(Direction),
    /// This tile could not be discovered. The tiles before it stay discovered.
    DiscoverFailed(Position),
}

impl SpotlightError {
    /// The text that describes this error.
    pub open spec fn text(self) -> Seq<char> {
        match self {
            SpotlightError::MapUnavailable => "Map not visible!"@,
            SpotlightError::ScanFailed(_) => "Error while calling one_direction_view interface!"@,
            SpotlightError::DiscoverFailed(_) => "Error while calling discover_tiles interface!"@,
        }
    }

    /// Describes this error in words.
    pub fn message(&self) -> (message: String)
        ensures
            message@ == self.text(),
    {
        match self {
            SpotlightError::MapUnavailable => "Map not visible!".to_owned(),
            SpotlightError::ScanFailed(_) => {
                "Error while calling one_direction_view interface!".to_owned()
            },
            SpotlightError::DiscoverFailed(_) => {
                "Error while calling discover_tiles interface!".to_owned()
            },
        }
    }
}

} // verus!
