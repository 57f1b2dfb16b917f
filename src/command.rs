use vstd::prelude::*;

verus! {

/// An editing command on an image.
#[derive(Debug, Clone, PartialEq, Eq)]
pub enum Command {
    LoadImage { path: String },
    Resize { width: u32, height: u32 },
    Crop { x: u32, y: u32, w: u32, h: u32 },
    Export { path: String },
}

} // verus!
