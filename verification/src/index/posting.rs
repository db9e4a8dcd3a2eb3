use std::rc::Rc;
use vstd::prelude::*;

use super::term::Term;

verus! {

/// What is known of one term in one document: how often it occurs, and
/// where.
#[derive(Debug)]
pub struct Posting {
    pub term: Rc<Term>,
    pub freq: u32,
    pub positions: Vec<u32>,
}

impl Posting {
    /// The posting of a term that was seen once, at `position`.
    pub fn new(term: Rc<Term>, position: u32) -> (posting: Posting)
        ensures
            posting.term == term,
            posting.freq == 1,
            posting.positions@ == seq![position],
    {
        let mut positions: Vec<u32> = Vec::new();
        positions.push(position);
        Posting { term, freq: 1, positions }
    }
}

} // verus!
