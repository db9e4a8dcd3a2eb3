use vstd::prelude::*;

verus! {

/// Semantic version of the engine that produced a file.
#[derive(Debug, Clone, Copy, PartialEq, Eq, Structural)]
pub struct Version {
    pub major: u32,
    pub minor: u32,
    pub bugfix: u32,
}

} // verus!
