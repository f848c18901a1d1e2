//! A spotlight for a robot on a square grid of tiles.
//!
//! To illuminate is to discover the tiles of the square around the robot. The robot
//! first looks along its row and its column, as far as the square reaches, and then
//! has every tile of the square that is still hidden discovered, the nearest first.
//! Before it starts, the price of all this can be estimated.
//!
//! The library decides and never acts: [`Spotlight::illuminate`] tells its caller what
//! to do next and is told what came of it.

pub mod bounds;
pub mod cost;
pub mod error;
pub mod grid;
pub mod illumination;
pub mod order;
pub mod plan;
pub mod spotlight;

pub use crate::error::{Direction, SpotlightError};
pub use crate::grid::Grid;
pub use crate::illumination::{Action, Event, Illumination};
pub use crate::spotlight::Spotlight;
