use std::rc::Rc;
use vstd::prelude::*;
use vstd::string::StringExecFns;

use super::error::IndexError;
use super::field_info::{
    add_all, encode_field_infos, field_entries, names_fit, names_of, FieldInfos,
};
use super::fields_writer::{can_store, encode_stored_doc, field_number, FieldsWriter};
use super::posting::Posting;
use super::term::{lemma_term_order, term_lt, Term};
use crate::analysis::Analyzer;
use crate::document::{Document, Field};
use crate::store::directory::Directory;
use crate::store::util::text_views;

verus! {

/// The default for the greatest position at which a token of an analyzed
/// field is still indexed.
pub const MAX_FIELD_LENGTH: usize = 1024;

/// A term, as a pair of texts, with the positions at which it occurs.
pub type PostingView = ((Seq<char>, Seq<char>), Seq<u32>);

pub open spec fn posting_view(posting: Posting) -> PostingView {
    ((*posting.term)@, posting.positions@)
}

/// The terms of a list of postings.
pub open spec fn terms_of(postings: Seq<PostingView>) -> Seq<(Seq<char>, Seq<char>)> {
    postings.map_values(|posting: PostingView| posting.0)
}

/// The postings after one more occurrence of `term`, at `position`: a term
/// that has a posting gets the position added at the end of its positions,
/// a new term gets a posting of its own, which comes last. A posting that
/// holds `u32::MAX` positions is full and takes no more.
pub open spec fn posting_add(
    postings: Seq<PostingView>,
    term: (Seq<char>, Seq<char>),
    position: u32,
) -> Seq<PostingView> {
    if terms_of(postings).contains(term) {
        let i = terms_of(postings).index_of(term);
        if postings[i].1.len() >= u32::MAX {
            postings
        } else {
            postings.update(i, (term, postings[i].1.push(position)))
        }
    } else {
        postings.push((term, seq![position]))
    }
}

/// The postings stand in the order of their terms.
pub open spec fn sorted_by_term(postings: Seq<PostingView>) -> bool {
    forall|a: int, b: int| 0 <= a < b < postings.len() ==> term_lt(postings[a].0, postings[b].0)
}

/// The two lists hold the same postings, each as often as the other has
/// it when no term has two postings.
pub open spec fn same_postings(first: Seq<PostingView>, second: Seq<PostingView>) -> bool {
    &&& first.len() == second.len()
    &&& forall|posting: PostingView| first.contains(posting) <==> second.contains(posting)
}

/// What a list is after the item at place `from` is moved down to place
/// `to`.
pub proof fn lemma_move<T>(s: Seq<T>, from: int, to: int)
    requires
        0 <= to < from < s.len(),
    ensures
        s.remove(from).insert(to, s[from]).len() == s.len(),
        forall|k: int| 0 <= k < to ==> s.remove(from).insert(to, s[from])[k] == s[k],
        s.remove(from).insert(to, s[from])[to] == s[from],
        forall|k: int| to < k <= from ==> s.remove(from).insert(to, s[from])[k] == s[k - 1],
        forall|k: int| from < k < s.len() ==> s.remove(from).insert(to, s[from])[k] == s[k],
{
}

/// The postings of one document, one for each term that was seen, in the
/// order in which the terms were first seen. A term is a pair of texts and
/// is found by going through the list and comparing.
pub struct PostingsTable {
    pub table: Vec<Posting>,
}

impl View for PostingsTable {
    type V = Seq<PostingView>;

    open spec fn view(&self) -> Seq<PostingView> {
        self.table@.map_values(|posting: Posting| posting_view(posting))
    }
}

impl PostingsTable {
    /// No term has two postings, and each posting counts its positions, of
    /// which it has at least one.
    pub open spec fn wf(&self) -> bool {
        &&& terms_of(self@).no_duplicates()
        &&& forall|i: int|
            0 <= i < self.table@.len() ==> (#[trigger] self.table@[i]).freq
                == self.table@[i].positions@.len() && self.table@[i].freq >= 1
    }

    pub fn new() -> (table: PostingsTable)
        ensures
            table.wf(),
            table@.len() == 0,
    {
        PostingsTable { table: Vec::new() }
    }

    /// The place of the posting of `term`.
    fn find(&self, term: &Term) -> (r: Option<usize>)
        ensures
            match r {
                Some(i) => i < self@.len() && self@[i as int].0 == term@,
                None => !terms_of(self@).contains(term@),
            },
    {
        let mut i: usize = 0;
        while i < self.table.len()
            invariant
                i <= self.table@.len(),
                forall|j: int| 0 <= j < i ==> terms_of(self@)[j] != term@,
            decreases self.table@.len() - i,
        {
            if self.table[i].term.same(term) {
                return Some(i);
            }
            i = i + 1;
        }
        None
    }

    /// Records one more occurrence of `term`, at `position`.
    pub fn add(&mut self, term: Rc<Term>, position: usize)
        requires
            old(self).wf(),
            position <= u32::MAX,
        ensures
            final(self).wf(),
            final(self)@ == posting_add(old(self)@, term@, position as u32),
    {
        match self.find(&term) {
            Some(i) => {
                proof {
                    assert(terms_of(self@)[i as int] == term@);
                }
                if self.table[i].freq < u32::MAX {
                    let mut posting = self.table.remove(i);
                    posting.positions.push(position as u32);
                    posting.freq = posting.freq + 1;
                    self.table.insert(i, posting);
                    proof {
                        let before = old(self)@;
                        assert(self@ =~= before.update(
                            i as int,
                            (term@, before[i as int].1.push(position as u32)),
                        ));
                        assert(terms_of(self@) =~= terms_of(before));
                    }
                }
            },
            None => {
                self.table.push(Posting::new(term, position as u32));
                proof {
                    let before = old(self)@;
                    assert(self@ =~= before.push((term@, seq![position as u32])));
                    assert(terms_of(self@) =~= terms_of(before).push(term@));
                }
            },
        }
    }

    /// The posting of `term`, if the term was seen.
    pub fn get(&self, term: &Term) -> (r: Option<&Posting>)
        ensures
            match r {
                Some(posting) => terms_of(self@).contains(term@) && exists|i: int|
                    0 <= i < self.table@.len() && self.table@[i] == *posting && self@[i].0
                        == term@,
                None => !terms_of(self@).contains(term@),
            },
    {
        match self.find(term) {
            Some(i) => {
                proof {
                    assert(terms_of(self@)[i as int] == term@);
                }
                Some(&self.table[i])
            },
            None => None,
        }
    }

    /// The number of terms.
    pub fn len(&self) -> (n: usize)
        ensures
            n == self@.len(),
    {
        self.table.len()
    }

    /// All postings, in the order in which their terms were first seen.
    pub fn values(&self) -> (postings: Vec<&Posting>)
        ensures
            postings@.len() == self.table@.len(),
            forall|i: int| 0 <= i < postings@.len() ==> *postings@[i] == self.table@[i],
    {
        let mut postings: Vec<&Posting> = Vec::new();
        let mut i: usize = 0;
        while i < self.table.len()
            invariant
                i <= self.table@.len(),
                postings@.len() == i,
                forall|j: int| 0 <= j < i ==> *postings@[j] == self.table@[j],
            decreases self.table@.len() - i,
        {
            postings.push(&self.table[i]);
            i = i + 1;
        }
        postings
    }

    pub fn clear(&mut self)
        ensures
            final(self).wf(),
            final(self)@.len() == 0,
    {
        self.table.clear();
    }

    /// Puts the postings into the order of their terms.
    pub fn sort(&mut self)
        requires
            old(self).wf(),
        ensures
            final(self).wf(),
            sorted_by_term(final(self)@),
            same_postings(old(self)@, final(self)@),
    {
        let mut i: usize = 0;
        while i < self.table.len()
            invariant
                i <= self.table@.len(),
                self.wf(),
                same_postings(old(self)@, self@),
                sorted_by_term(self@.take(i as int)),
            decreases self.table@.len() - i,
        {
            let mut j: usize = 0;
            while j < i && self.table[j].term.precedes(&self.table[i].term)
                invariant
                    j <= i < self.table@.len(),
                    forall|k: int| 0 <= k < j ==> term_lt(self@[k].0, self@[i as int].0),
                decreases i - j,
            {
                j = j + 1;
            }
            let ghost before = self.table@;
            let ghost views = self@;
            proof {
                assert forall|a: int, b: int| 0 <= a < b < i implies term_lt(
                    views[a].0,
                    views[b].0,
                ) by {
                    assert(views.take(i as int)[a] == views[a]);
                    assert(views.take(i as int)[b] == views[b]);
                }
            }
            if j < i {
                let posting = self.table.remove(i);
                self.table.insert(j, posting);
                proof {
                    lemma_move(before, i as int, j as int);
                    lemma_move(views, i as int, j as int);
                    let after = self@;
                    assert(after =~= views.remove(i as int).insert(j as int, views[i as int]));
                    // the moved term comes before those that it passed
                    assert(terms_of(views)[j as int] != terms_of(views)[i as int]);
                    lemma_term_order(views[i as int].0, views[j as int].0, views[j as int].0);
                    assert(term_lt(views[i as int].0, views[j as int].0));
                    let prefix = after.take(i + 1);
                    assert forall|a: int, b: int| 0 <= a < b < prefix.len() implies term_lt(
                        prefix[a].0,
                        prefix[b].0,
                    ) by {
                        assert(prefix[a] == after[a]);
                        assert(prefix[b] == after[b]);
                        if a == j && b > j + 1 {
                            lemma_term_order(
                                views[i as int].0,
                                views[j as int].0,
                                views[b - 1].0,
                            );
                        }
                    }
                    assert forall|posting: PostingView| views.contains(posting)
                        <==> after.contains(posting) by {
                        if views.contains(posting) {
                            let k = choose|k: int| 0 <= k < views.len() && views[k] == posting;
                            if k < j {
                                assert(after[k] == posting);
                            } else if k < i {
                                assert(after[k + 1] == posting);
                            } else if k == i {
                                assert(after[j as int] == posting);
                            } else {
                                assert(after[k] == posting);
                            }
                        }
                        if after.contains(posting) {
                            let k = choose|k: int| 0 <= k < after.len() && after[k] == posting;
                            if k < j {
                                assert(views[k] == posting);
                            } else if k == j {
                                assert(views[i as int] == posting);
                            } else if k <= i {
                                assert(views[k - 1] == posting);
                            } else {
                                assert(views[k] == posting);
                            }
                        }
                    }
                    assert forall|a: int, b: int|
                        0 <= a < after.len() && 0 <= b < after.len() && a != b implies terms_of(
                        after,
                    )[a] != terms_of(after)[b] by {
                        let from = |k: int|
                            if k < j {
                                k
                            } else if k == j {
                                i as int
                            } else if k <= i {
                                k - 1
                            } else {
                                k
                            };
                        assert(after[a] == views[from(a)]);
                        assert(after[b] == views[from(b)]);
                        assert(terms_of(views)[from(a)] != terms_of(views)[from(b)]);
                    }
                    assert forall|k: int| 0 <= k < self.table@.len() implies (
                    #[trigger] self.table@[k]).freq == self.table@[k].positions@.len()
                        && self.table@[k].freq >= 1 by {
                        if k < j {
                            assert(self.table@[k] == before[k]);
                        } else if k == j {
                            assert(self.table@[k] == before[i as int]);
                        } else if k <= i {
                            assert(self.table@[k] == before[k - 1]);
                        } else {
                            assert(self.table@[k] == before[k]);
                        }
                    }
                }
            } else {
                proof {
                    let prefix = views.take(i + 1);
                    assert forall|a: int, b: int| 0 <= a < b < prefix.len() implies term_lt(
                        prefix[a].0,
                        prefix[b].0,
                    ) by {
                        assert(prefix[a] == views[a]);
                        assert(prefix[b] == views[b]);
                    }
                }
            }
            i = i + 1;
        }
        proof {
            assert(self@.take(i as int) =~= self@);
        }
    }
}

/// The postings after the tokens of one field are indexed from `position`
/// on, and the position after the last token that was indexed. Each token
/// takes one position. Once the position has gone beyond `max`, the tokens
/// that are left are dropped.
pub open spec fn index_tokens(
    postings: Seq<PostingView>,
    field: Seq<char>,
    tokens: Seq<Seq<char>>,
    position: nat,
    max: nat,
) -> (Seq<PostingView>, nat)
    decreases tokens.len(),
{
    if tokens.len() == 0 {
        (postings, position)
    } else {
        let added = posting_add(postings, (field, tokens[0]), position as u32);
        if position + 1 > max {
            (added, position + 1)
        } else {
            index_tokens(added, field, tokens.skip(1), position + 1, max)
        }
    }
}

/// The tokens of a field: those that the analyzer gives for its value, or
/// the whole value as one token when the field is not analyzed.
pub open spec fn field_tokens<A: Analyzer>(analyzer: &A, field: Field) -> Seq<Seq<char>> {
    if field.is_analyzed {
        analyzer.tokens(field.value@)
    } else {
        seq![field.value@]
    }
}

/// Postings and field lengths after one more field. A field that is not
/// indexed changes nothing. The tokens of an indexed field are indexed from
/// the length that its number has so far, and the position after them is
/// its new length.
pub open spec fn invert_field<A: Analyzer>(
    analyzer: &A,
    state: (Seq<PostingView>, Seq<usize>),
    field: Field,
    infos: Seq<(Seq<char>, bool)>,
    max: nat,
) -> (Seq<PostingView>, Seq<usize>) {
    if !field.is_indexed {
        state
    } else {
        let number = field_number(infos, field.name@);
        let indexed = index_tokens(
            state.0,
            field.name@,
            field_tokens(analyzer, field),
            state.1[number] as nat,
            max,
        );
        (indexed.0, state.1.update(number, indexed.1 as usize))
    }
}

/// Postings and field lengths after the fields of a document, in the order
/// of the document.
pub open spec fn invert<A: Analyzer>(
    analyzer: &A,
    state: (Seq<PostingView>, Seq<usize>),
    fields: Seq<Field>,
    infos: Seq<(Seq<char>, bool)>,
    max: nat,
) -> (Seq<PostingView>, Seq<usize>)
    decreases fields.len(),
{
    if fields.len() == 0 {
        state
    } else {
        invert_field(
            analyzer,
            invert(analyzer, state, fields.drop_last(), infos, max),
            fields.last(),
            infos,
            max,
        )
    }
}

/// Every indexed field of the document is registered.
pub open spec fn indexed_registered(fields: Seq<Field>, infos: Seq<(Seq<char>, bool)>) -> bool {
    forall|i: int|
        0 <= i < fields.len() && (#[trigger] fields[i]).is_indexed ==> names_of(infos).contains(
            fields[i].name@,
        )
}

/// Positions stay below `u32::MAX` while `remaining` more fields are
/// indexed.
pub open spec fn lengths_fit(lengths: Seq<usize>, max: nat, remaining: nat) -> bool {
    &&& max + remaining < u32::MAX
    &&& forall|n: int| 0 <= n < lengths.len() ==> (#[trigger] lengths[n]) + remaining < u32::MAX
}

/// Indexes the tokens of one field from position `start` on, and returns
/// the position after the last token that was indexed.
pub fn add_tokens(
    table: &mut PostingsTable,
    field_name: &str,
    tokens: &Vec<String>,
    start: usize,
    max: usize,
) -> (position: usize)
    requires
        old(table).wf(),
        start < u32::MAX,
        max < u32::MAX,
    ensures
        final(table).wf(),
        (final(table)@, position as nat) == index_tokens(
            old(table)@,
            field_name@,
            text_views(tokens@),
            start as nat,
            max as nat,
        ),
        position <= start + 1 || position <= max + 1,
{
    let ghost texts = text_views(tokens@);
    let mut position = start;
    let mut k: usize = 0;
    proof {
        assert(texts.skip(0) =~= texts);
    }
    while k < tokens.len()
        invariant
            k <= tokens@.len(),
            texts == text_views(tokens@),
            table.wf(),
            max < u32::MAX,
            start < u32::MAX,
            k < tokens@.len() ==> position <= start || position <= max,
            position <= start + 1 || position <= max + 1,
            index_tokens(table@, field_name@, texts.skip(k as int), position as nat, max as nat)
                == index_tokens(old(table)@, field_name@, texts, start as nat, max as nat),
        decreases tokens@.len() - k,
    {
        proof {
            assert(texts.skip(k as int).skip(1) =~= texts.skip(k + 1));
            assert(texts.skip(k as int)[0] == tokens@[k as int]@);
        }
        let term = Rc::new(
            Term::new(String::from_str(field_name), tokens[k].clone()),
        );
        table.add(term, position);
        position = position + 1;
        if position > max {
            k = tokens.len();
            proof {
                assert(texts.skip(k as int) =~= Seq::<Seq<char>>::empty());
            }
        } else {
            k = k + 1;
        }
    }
    proof {
        assert(texts.skip(k as int) =~= Seq::<Seq<char>>::empty());
    }
    position
}

/// Adds documents to a segment, one at a time.
pub struct DocumentWriter<A: Analyzer, D: Directory> {
    pub analyzer: A,
    pub directory: D,
    /// The greatest position at which a token of an analyzed field is
    /// still indexed.
    pub max_field_length: usize,
    pub field_infos: FieldInfos,
    pub postings_table: PostingsTable,
    /// For each field number, the position after the last token of the
    /// document that was indexed under it.
    pub field_lengths: Vec<usize>,
}

impl<A: Analyzer, D: Directory> DocumentWriter<A, D> {
    pub fn new(analyzer: A, directory: D) -> (writer: DocumentWriter<A, D>)
        ensures
            writer.analyzer == analyzer,
            writer.directory == directory,
            writer.max_field_length == MAX_FIELD_LENGTH,
            writer.field_infos.wf(),
            writer.field_infos@.len() == 0,
            writer.postings_table.wf(),
            writer.postings_table@.len() == 0,
            writer.field_lengths@.len() == 0,
    {
        DocumentWriter {
            analyzer,
            directory,
            max_field_length: MAX_FIELD_LENGTH,
            field_infos: FieldInfos::new(),
            postings_table: PostingsTable::new(),
            field_lengths: Vec::new(),
        }
    }

    /// Turns the indexed fields of the document into postings, which are
    /// added to those of the table, and moves the lengths of their fields
    /// on.
    pub fn invert_doc(&mut self, doc: &Document)
        requires
            old(self).field_infos.wf(),
            old(self).postings_table.wf(),
            old(self).field_lengths@.len() == old(self).field_infos@.len(),
            indexed_registered(doc.fields@, old(self).field_infos@),
            lengths_fit(
                old(self).field_lengths@,
                old(self).max_field_length as nat,
                doc.fields@.len(),
            ),
        ensures
            final(self).field_infos == old(self).field_infos,
            final(self).max_field_length == old(self).max_field_length,
            final(self).analyzer == old(self).analyzer,
            final(self).directory == old(self).directory,
            final(self).postings_table.wf(),
            (final(self).postings_table@, final(self).field_lengths@) == invert(
                &old(self).analyzer,
                (old(self).postings_table@, old(self).field_lengths@),
                doc.fields@,
                old(self).field_infos@,
                old(self).max_field_length as nat,
            ),
    {
        let ghost infos = self.field_infos@;
        let ghost start = (self.postings_table@, self.field_lengths@);
        let ghost max = self.max_field_length as nat;
        let mut i: usize = 0;
        while i < doc.fields.len()
            invariant
                i <= doc.fields@.len(),
                self.field_infos == old(self).field_infos,
                self.max_field_length == old(self).max_field_length,
                self.analyzer == old(self).analyzer,
                self.directory == old(self).directory,
                infos == self.field_infos@,
                start == (old(self).postings_table@, old(self).field_lengths@),
                max == self.max_field_length,
                self.field_infos.wf(),
                self.postings_table.wf(),
                self.field_lengths@.len() == infos.len(),
                indexed_registered(doc.fields@, infos),
                lengths_fit(self.field_lengths@, max, (doc.fields@.len() - i) as nat),
                (self.postings_table@, self.field_lengths@) == invert(
                    &self.analyzer,
                    start,
                    doc.fields@.take(i as int),
                    infos,
                    max,
                ),
            decreases doc.fields@.len() - i,
        {
            proof {
                assert(doc.fields@.take(i + 1).drop_last() =~= doc.fields@.take(i as int));
                assert(doc.fields@.take(i + 1).last() == doc.fields@[i as int]);
            }
            let field = &doc.fields[i];
            if field.is_indexed {
                proof {
                    self.field_infos.lemma_distinct_names();
                }
                let number = match self.field_infos.get_field_number(field.name.as_str()) {
                    Some(number) => number as usize,
                    None => 0,
                };
                proof {
                    assert(names_of(infos)[number as int] == field.name@);
                    assert(field_number(infos, field.name@) == number);
                }
                let from = self.field_lengths[number];
                let tokens = if field.is_analyzed {
                    self.analyzer.analyze(field.value.as_str())
                } else {
                    let mut tokens: Vec<String> = Vec::new();
                    tokens.push(field.value.clone());
                    proof {
                        assert(text_views(tokens@) =~= seq![field.value@]);
                    }
                    tokens
                };
                let position = add_tokens(
                    &mut self.postings_table,
                    field.name.as_str(),
                    &tokens,
                    from,
                    self.max_field_length,
                );
                self.field_lengths.set(number, position);
            }
            i = i + 1;
        }
        proof {
            assert(doc.fields@.take(i as int) =~= doc.fields@);
        }
    }

    /// Adds one document to the segment: registers its fields and writes
    /// the file of field names, writes its stored fields, turns its indexed
    /// fields into the postings of the table, which held none before, and
    /// puts the postings into the order of their terms. The fields are
    /// registered whatever the directory does; the postings are there when
    /// it did not fail.
    pub fn add_doc(&mut self, segment_id: &str, doc: Document) -> (r: Result<(), IndexError>)
        requires
            old(self).field_infos.wf(),
            ({
                let infos = add_all(old(self).field_infos@, field_entries(doc.fields@));
                &&& names_fit(infos)
                &&& encode_field_infos(infos).len() <= u64::MAX
                &&& can_store(doc.fields@, infos)
                &&& encode_stored_doc(doc.fields@, infos).len() <= u64::MAX
                &&& indexed_registered(doc.fields@, infos)
            }),
            old(self).max_field_length + doc.fields@.len() < u32::MAX,
        ensures
            final(self).field_infos.wf(),
            final(self).field_infos@ == add_all(old(self).field_infos@, field_entries(doc.fields@)),
            final(self).max_field_length == old(self).max_field_length,
            match r {
                Ok(()) => {
                    let inverted = invert(
                        &old(self).analyzer,
                        (
                            Seq::<PostingView>::empty(),
                            Seq::new(final(self).field_infos@.len(), |n: int| 0usize),
                        ),
                        doc.fields@,
                        final(self).field_infos@,
                        old(self).max_field_length as nat,
                    );
                    &&& final(self).postings_table.wf()
                    &&& same_postings(inverted.0, final(self).postings_table@)
                    &&& sorted_by_term(final(self).postings_table@)
                    &&& final(self).field_lengths@ == inverted.1
                },
                Err(e) => e is Directory,
            },
    {
        self.field_infos.add_doc(&doc);
        let fnm = String::from_str(segment_id).concat(".fnm");
        match self.field_infos.write(&self.directory, fnm.as_str()) {
            Ok(()) => {},
            Err(e) => { return Err(e); },
        }

        let mut fields_writer = match FieldsWriter::new(
            &self.directory,
            segment_id,
            &self.field_infos,
        ) {
            Ok(writer) => writer,
            Err(e) => { return Err(e); },
        };
        fields_writer.add_doc(&doc);
        match fields_writer.close() {
            Ok(()) => {},
            Err(e) => { return Err(e); },
        }

        self.postings_table.clear();
        let size = self.field_infos.size();
        let mut lengths: Vec<usize> = Vec::new();
        while lengths.len() < size
            invariant
                lengths@.len() <= size,
                forall|n: int| 0 <= n < lengths@.len() ==> lengths@[n] == 0,
            decreases size - lengths@.len(),
        {
            lengths.push(0);
        }
        self.field_lengths = lengths;
        proof {
            assert(self.field_lengths@ =~= Seq::new(self.field_infos@.len(), |n: int| 0usize));
            assert(self.postings_table@ =~= Seq::<PostingView>::empty());
        }
        self.invert_doc(&doc);
        self.postings_table.sort();
        Ok(())
    }
}

} // verus!
