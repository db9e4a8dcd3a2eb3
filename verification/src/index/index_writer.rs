use vstd::prelude::*;

verus! {

/// Whether an index is made anew or opened as it is.
#[derive(Debug, Clone, Copy, PartialEq, Eq, Structural)]
pub enum WriteMode {
    CREATE,
    OPEN,
}

} // verus!
