use vstd::prelude::*;

verus! {

/// What can go wrong when drawing text.
#[derive(Debug, Clone, Copy, PartialEq, Eq, Structural)]
pub enum TextError {
    FontNotFound,
}

} // verus!
