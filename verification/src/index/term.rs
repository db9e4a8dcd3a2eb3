use std::cmp::Ordering;
use vstd::prelude::*;
use vstd::std_specs::cmp::{PartialEqSpecImpl, PartialOrdSpecImpl};

use vstd::utf8::{encode_utf8, encode_utf8_decode_utf8};

use crate::store::util::{
    lemma_lex_irreflexive, lemma_lex_total, lemma_lex_transitive, lex_lt, str_eq, str_lt,
    text_lt,
};

verus! {

/// A token together with the name of the field in which it occurs.
#[derive(Debug, Hash, Eq, Ord)]
pub struct Term {
    pub field: String,
    pub text: String,
}

impl View for Term {
    type V = (Seq<char>, Seq<char>);

    open spec fn view(&self) -> (Seq<char>, Seq<char>) {
        (self.field@, self.text@)
    }
}

/// The order of terms: by field, and within a field by text, each in the
/// byte order of its UTF-8 encoding.
pub open spec fn term_lt(a: (Seq<char>, Seq<char>), b: (Seq<char>, Seq<char>)) -> bool {
    text_lt(a.0, b.0) || (a.0 == b.0 && text_lt(a.1, b.1))
}

/// The order of terms is a strict total order: no term comes before
/// itself, of two terms that differ one comes before the other, and what
/// comes before a term comes before all that the term comes before.
pub proof fn lemma_term_order(
    a: (Seq<char>, Seq<char>),
    b: (Seq<char>, Seq<char>),
    c: (Seq<char>, Seq<char>),
)
    ensures
        !term_lt(a, a),
        term_lt(a, b) || term_lt(b, a) || a == b,
        !(term_lt(a, b) && term_lt(b, a)),
        term_lt(a, b) && term_lt(b, c) ==> term_lt(a, c),
{
    let (af, at) = (encode_utf8(a.0), encode_utf8(a.1));
    let (bf, bt) = (encode_utf8(b.0), encode_utf8(b.1));
    let (cf, ct) = (encode_utf8(c.0), encode_utf8(c.1));
    encode_utf8_decode_utf8(a.0);
    encode_utf8_decode_utf8(a.1);
    encode_utf8_decode_utf8(b.0);
    encode_utf8_decode_utf8(b.1);
    encode_utf8_decode_utf8(c.0);
    encode_utf8_decode_utf8(c.1);
    lemma_lex_irreflexive(af);
    lemma_lex_irreflexive(at);
    lemma_lex_irreflexive(bf);
    lemma_lex_irreflexive(bt);
    lemma_lex_total(af, bf);
    lemma_lex_total(at, bt);
    if lex_lt(af, bf) && lex_lt(bf, af) {
        lemma_lex_transitive(af, bf, af);
    }
    if lex_lt(at, bt) && lex_lt(bt, at) {
        lemma_lex_transitive(at, bt, at);
    }
    if term_lt(a, b) && term_lt(b, c) {
        if lex_lt(af, bf) && lex_lt(bf, cf) {
            lemma_lex_transitive(af, bf, cf);
        }
        if lex_lt(at, bt) && lex_lt(bt, ct) {
            lemma_lex_transitive(at, bt, ct);
        }
    }
}

impl Term {
    pub fn new(field: String, text: String) -> (term: Term)
        ensures
            term.field == field,
            term.text == text,
    {
        Term { field, text }
    }

    /// Whether the two terms have the same field and the same text.
    pub fn same(&self, other: &Term) -> (r: bool)
        ensures
            r == (self@ == other@),
    {
        str_eq(self.field.as_str(), other.field.as_str()) && str_eq(
            self.text.as_str(),
            other.text.as_str(),
        )
    }

    /// Whether this term comes before `other` in the order of terms.
    pub fn precedes(&self, other: &Term) -> (r: bool)
        ensures
            r == term_lt(self@, other@),
    {
        if str_eq(self.field.as_str(), other.field.as_str()) {
            proof {
                lemma_lex_irreflexive(encode_utf8(self.field@));
            }
            str_lt(self.text.as_str(), other.text.as_str())
        } else {
            str_lt(self.field.as_str(), other.field.as_str())
        }
    }
}

impl PartialEq for Term {
    fn eq(&self, other: &Term) -> (r: bool) {
        str_eq(self.field.as_str(), other.field.as_str()) && str_eq(
            self.text.as_str(),
            other.text.as_str(),
        )
    }
}

impl PartialEqSpecImpl for Term {
    open spec fn obeys_eq_spec() -> bool {
        true
    }

    open spec fn eq_spec(&self, other: &Term) -> bool {
        self.field@ == other.field@ && self.text@ == other.text@
    }
}

impl PartialOrd for Term {
    fn partial_cmp(&self, other: &Term) -> (r: Option<Ordering>) {
        if self.eq(other) {
            Some(Ordering::Equal)
        } else if self.precedes(other) {
            Some(Ordering::Less)
        } else {
            Some(Ordering::Greater)
        }
    }
}

impl PartialOrdSpecImpl for Term {
    open spec fn obeys_partial_cmp_spec() -> bool {
        true
    }

    open spec fn partial_cmp_spec(&self, other: &Term) -> Option<Ordering> {
        if self.field@ == other.field@ && self.text@ == other.text@ {
            Some(Ordering::Equal)
        } else if term_lt(self@, other@) {
            Some(Ordering::Less)
        } else {
            Some(Ordering::Greater)
        }
    }
}

} // verus!
