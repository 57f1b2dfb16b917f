use vstd::prelude::*;
use crate::frame::Frame;

verus! {

/// An image operation: takes a frame and gives back the filtered frame.
/// By default a filter leaves the frame as it is.
pub trait Filter {
    fn apply(&self, frame: Frame) -> Frame {
        frame
    }
}

} // verus!
