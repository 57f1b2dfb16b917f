use vstd::prelude::*;

verus! {

/// What can go wrong when combining audio tracks.
#[derive(Debug, Clone, Copy, PartialEq, Eq, Structural)]
pub enum TrackError {
    InvalidTrack,
    MixingIsNotPossible,
}

} // verus!
