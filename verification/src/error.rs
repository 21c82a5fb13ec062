//! The ways in which a request can fail.

use vstd::prelude::*;

verus! {

/// Why a request could not be answered.
#[derive(Clone, Copy, Debug, PartialEq, Eq, Structural)]
pub enum Error {
    /// The input could not be read as OSM data, or contradicts itself.
    InputMalformed,
    /// Fewer than two intersections are left once the ways are classified.
    EmptyArea,
    /// No road is found for the point: the walker may take no road at all. A point is
    /// snapped to the nearest road at any distance, so nothing else gives this error.
    NotSnappable,
    /// No walk leads from the start to the end.
    NoPath,
    /// The start and the end are the same intersection.
    DegenerateInput,
    /// No profile goes by the name.
    UnknownProfile,
}

impl Error {
    /// What went wrong, in words.
    pub fn message(&self) -> (text: &'static str)
        ensures
            text@ == match *self {
                Error::InputMalformed => "the input is not valid OSM data"@,
                Error::EmptyArea => "the area holds no walking network"@,
                Error::NotSnappable => "no road is near the point"@,
                Error::NoPath => "no path leads from the start to the end"@,
                Error::DegenerateInput => "the start and the end are the same intersection"@,
                Error::UnknownProfile => "no profile has this name"@,
            },
    {
        match self {
            Error::InputMalformed => "the input is not valid OSM data",
            Error::EmptyArea => "the area holds no walking network",
            Error::NotSnappable => "no road is near the point",
            Error::NoPath => "no path leads from the start to the end",
            Error::DegenerateInput => "the start and the end are the same intersection",
            Error::UnknownProfile => "no profile has this name",
        }
    }
}

} // verus!
