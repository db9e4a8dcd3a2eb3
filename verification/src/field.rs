use vstd::prelude::*;

verus! {

/// Whether the value of a field is kept in the index.
#[derive(Debug, Clone, Copy, PartialEq, Eq, Structural)]
pub enum Store {
    Yes,
    No,
}

} // verus!
