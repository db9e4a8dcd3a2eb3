use vstd::prelude::*;

use crate::store::util::text_views;

verus! {

/// The pieces of `text` between its spaces. Two spaces in a row have an
/// empty piece between them, and a text without a space is one piece.
pub open spec fn split_spaces(text: Seq<char>) -> Seq<Seq<char>>
    decreases text.len(),
{
    if text.len() == 0 {
        seq![Seq::empty()]
    } else if text[0] == ' ' {
        seq![Seq::empty()] + split_spaces(text.skip(1))
    } else {
        let rest = split_spaces(text.skip(1));
        rest.update(0, seq![text[0]] + rest[0])
    }
}

/// `str::split` of std with a single space as the pattern: the substrings
/// of `text` that the spaces separate, in order.
#[verifier::external_body]
fn split_at_spaces(text: &str) -> (tokens: Vec<String>)
    ensures
        text_views(tokens@) == split_spaces(text@),
{
    let mut tokens = Vec::new();
    for token in text.split(" ") {
        tokens.push(token.to_string());
    }
    tokens
}

/// Turns the value of a field into the tokens that are indexed.
pub trait Analyzer {
    /// The tokens of `text`, in the order in which they are indexed.
    spec fn tokens(&self, text: Seq<char>) -> Seq<Seq<char>>;

    fn analyze(&self, text: &str) -> (tokens: Vec<String>)
        ensures
            text_views(tokens@) == self.tokens(text@),
    ;
}

/// Splits a text at each single space.
pub struct StandardAnalyzer {}

impl StandardAnalyzer {
    pub fn new() -> (analyzer: StandardAnalyzer) {
        StandardAnalyzer {  }
    }
}

impl Analyzer for StandardAnalyzer {
    open spec fn tokens(&self, text: Seq<char>) -> Seq<Seq<char>> {
        split_spaces(text)
    }

    fn analyze(&self, text: &str) -> (tokens: Vec<String>) {
        split_at_spaces(text)
    }
}

} // verus!
