//! Typed failures of maze extraction, marker resolution and search.

use vstd::prelude::*;

verus! {

/// Every recoverable failure of one maze-solving attempt.
#[derive(Clone, Copy, Debug, PartialEq, Eq, Structural)]
pub enum MazeError {
    /// No wall-colored pixel exists anywhere, so no bounding box can be
    /// established.
    ExtractionAmbiguity,
    /// No pixel of the requested marker color exists in the image.
    MarkerNotFound,
    /// The marker lies outside the bounding box on two sides at once.
    MarkerAmbiguous,
    /// The goal exists but no path connects it to the start.
    Unreachable,
}

impl MazeError {
    /// A short fixed description of the failure.
    pub fn describe(&self) -> (r: &'static str)
    {
        match self {
            MazeError::ExtractionAmbiguity => "no wall-colored pixel found",
            MazeError::MarkerNotFound => "no marker pixel found",
            MazeError::MarkerAmbiguous => "marker outside the maze on two sides",
            MazeError::Unreachable => "no path connects start and end",
        }
    }
}

} // verus!
