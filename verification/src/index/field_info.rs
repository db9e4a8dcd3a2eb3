use std::rc::Rc;
use vstd::hash_map::StringHashMap;
use vstd::prelude::*;
use vstd::utf8::encode_utf8;

use super::error::{handed_back, IndexError};
use crate::document::{Document, Field};
use crate::store::directory::{
    may_close_file, may_create, may_open, Directory, DirectoryError,
};
use crate::store::io_stream::{
    decode_bool, decode_repeat, decode_string, decode_vint, encode_bool, encode_string,
    encode_varint, lemma_bool_round_trip, lemma_string_round_trip, lemma_then_items_step,
    lemma_vint_round_trip, lemma_wrote_then, then_items, write_all_at, wrote, Decoded,
    FormatError, InputStream, OutputStream,
};

verus! {

/// What is known of one field: its name, whether it is indexed, and the
/// number it was given when it was first seen.
#[derive(Debug, Clone)]
pub struct FieldInfo {
    pub name: String,
    pub is_indexed: bool,
    pub number: u32,
}

/// The fields of a segment, numbered in the order in which they were first
/// seen, and found by name or by number.
pub struct FieldInfos {
    by_number: Vec<Rc<FieldInfo>>,
    by_name: StringHashMap<u32>,
}

/// The names of a list of fields.
pub open spec fn names_of(fields: Seq<(Seq<char>, bool)>) -> Seq<Seq<char>> {
    fields.map_values(|field: (Seq<char>, bool)| field.0)
}

/// The list of fields after `name` is registered: a name that is there
/// changes nothing, a new name comes last. A list that holds `u32::MAX`
/// fields is full and takes no more.
pub open spec fn add_field(fields: Seq<(Seq<char>, bool)>, name: Seq<char>, is_indexed: bool)
    -> Seq<(Seq<char>, bool)> {
    if names_of(fields).contains(name) || fields.len() >= u32::MAX {
        fields
    } else {
        fields.push((name, is_indexed))
    }
}

/// The list of fields after each of `entries` is registered, in order.
pub open spec fn add_all(fields: Seq<(Seq<char>, bool)>, entries: Seq<(Seq<char>, bool)>) -> Seq<
    (Seq<char>, bool),
>
    decreases entries.len(),
{
    if entries.len() == 0 {
        fields
    } else {
        add_field(add_all(fields, entries.drop_last()), entries.last().0, entries.last().1)
    }
}

/// What a list of document fields asks to be registered.
pub open spec fn field_entries(fields: Seq<Field>) -> Seq<(Seq<char>, bool)> {
    fields.map_values(|field: Field| (field.name@, field.is_indexed))
}

/// The fields as they are written, one after the other: the name as a text,
/// then whether the field is indexed.
pub open spec fn encode_fields(fields: Seq<(Seq<char>, bool)>) -> Seq<u8>
    decreases fields.len(),
{
    if fields.len() == 0 {
        Seq::empty()
    } else {
        encode_fields(fields.drop_last()) + (encode_string(fields.last().0) + encode_bool(
            fields.last().1,
        ))
    }
}

/// The file of field names: the number of fields as a variable-length
/// integer, then each field.
pub open spec fn encode_field_infos(fields: Seq<(Seq<char>, bool)>) -> Seq<u8> {
    encode_varint(fields.len()) + encode_fields(fields)
}

pub open spec fn decode_field(s: Seq<u8>) -> Decoded<(Seq<char>, bool)> {
    match decode_string(s) {
        Ok((name, rest)) => match decode_bool(rest) {
            Ok((is_indexed, rest)) => Ok(((name, is_indexed), rest)),
            Err(e) => Err(e),
        },
        Err(e) => Err(e),
    }
}

pub open spec fn field_decoder() -> spec_fn(Seq<u8>) -> Decoded<(Seq<char>, bool)> {
    |s: Seq<u8>| decode_field(s)
}

/// The entries of a file of field names.
pub open spec fn decode_field_infos(s: Seq<u8>) -> Decoded<Seq<(Seq<char>, bool)>> {
    match decode_vint(s) {
        Ok((n, rest)) => decode_repeat(rest, n as nat, field_decoder()),
        Err(e) => Err(e),
    }
}

/// The names and flags of a list of entries as they were read.
pub open spec fn entry_views(entries: Seq<(String, bool)>) -> Seq<(Seq<char>, bool)> {
    entries.map_values(|entry: (String, bool)| (entry.0@, entry.1))
}

/// What reading a file of field names into a list gives, given what the
/// directory answered when it was asked to open the file: `before` and
/// `after` are the list before and after, `r` is what is returned.
pub open spec fn field_infos_read_given<I: InputStream>(
    opened: Result<I, DirectoryError>,
    before: Seq<(Seq<char>, bool)>,
    after: Seq<(Seq<char>, bool)>,
    r: Result<(), IndexError>,
) -> bool {
    match opened {
        Ok(input) => match decode_field_infos(input.remaining()) {
            Ok((entries, _)) => r is Ok && after == add_all(before, entries),
            Err(f) => r matches Err(IndexError::Format(found)) && found == f && after == before,
        },
        Err(e) => r matches Err(IndexError::Directory(found)) && found == e && after == before,
    }
}

/// Every name can be written: its UTF-8 bytes are at most `u32::MAX`.
pub open spec fn names_fit(fields: Seq<(Seq<char>, bool)>) -> bool {
    forall|i: int| 0 <= i < fields.len() ==> encode_utf8(#[trigger] fields[i].0).len() <= u32::MAX
}

/// The first fields of a list take no more bytes than the whole list.
pub proof fn lemma_encode_fields_prefix(fields: Seq<(Seq<char>, bool)>, i: int)
    requires
        0 <= i <= fields.len(),
    ensures
        encode_fields(fields.take(i)).len() <= encode_fields(fields).len(),
    decreases fields.len(),
{
    if i == fields.len() {
        assert(fields.take(i) =~= fields);
    } else {
        assert(fields.take(i) =~= fields.drop_last().take(i));
        lemma_encode_fields_prefix(fields.drop_last(), i);
    }
}

/// Registering fields keeps those that are there, at their places.
pub proof fn lemma_add_all_extends(fields: Seq<(Seq<char>, bool)>, entries: Seq<(Seq<char>, bool)>)
    ensures
        fields.len() <= add_all(fields, entries).len(),
        add_all(fields, entries).take(fields.len() as int) == fields,
    decreases entries.len(),
{
    if entries.len() == 0 {
        assert(fields.take(fields.len() as int) =~= fields);
    } else {
        lemma_add_all_extends(fields, entries.drop_last());
        let before = add_all(fields, entries.drop_last());
        assert(add_all(fields, entries).take(fields.len() as int) =~= before.take(
            fields.len() as int,
        ));
    }
}

/// However often a name is registered, it is counted once: after any
/// sequence of registrations in an empty list, the list has as many fields
/// as the registrations have distinct names, and no name twice. (The list
/// takes at most `u32::MAX` fields, so the names must be no more.)
pub proof fn lemma_size_counts_distinct_names(entries: Seq<(Seq<char>, bool)>)
    requires
        names_of(entries).to_set().len() <= u32::MAX,
    ensures
        add_all(Seq::empty(), entries).len() == names_of(entries).to_set().len(),
        names_of(add_all(Seq::empty(), entries)).no_duplicates(),
        names_of(add_all(Seq::empty(), entries)).to_set() == names_of(entries).to_set(),
    decreases entries.len(),
{
    broadcast use vstd::seq_lib::seq_to_set_is_finite;

    let result = add_all(Seq::empty(), entries);
    if entries.len() == 0 {
        assert(names_of(result) =~= names_of(entries));
        names_of(result).unique_seq_to_set();
    } else {
        let front = entries.drop_last();
        let name = entries.last().0;
        let before = add_all(Seq::empty(), front);
        assert(names_of(entries) =~= names_of(front).push(name));
        names_of(front).lemma_push_to_set_commute(name);
        vstd::set_lib::lemma_len_subset(names_of(front).to_set(), names_of(entries).to_set());
        lemma_size_counts_distinct_names(front);
        names_of(before).unique_seq_to_set();
        if names_of(before).contains(name) {
            assert(names_of(before).to_set().contains(name));
            assert(names_of(entries).to_set() =~= names_of(front).to_set());
        } else {
            assert(!names_of(front).to_set().contains(name));
            assert(before.len() < u32::MAX);
            assert(names_of(result) =~= names_of(before).push(name));
            names_of(before).lemma_push_to_set_commute(name);
        }
        names_of(result).unique_seq_to_set();
    }
}

/// Registering, in an empty list, fields whose names differ gives these
/// fields, in their order.
pub proof fn lemma_add_all_distinct(fields: Seq<(Seq<char>, bool)>)
    requires
        names_of(fields).no_duplicates(),
        fields.len() <= u32::MAX,
    ensures
        add_all(Seq::empty(), fields) == fields,
    decreases fields.len(),
{
    if fields.len() == 0 {
        assert(add_all(Seq::empty(), fields) =~= fields);
    } else {
        let front = fields.drop_last();
        assert(names_of(front) =~= names_of(fields).drop_last());
        lemma_add_all_distinct(front);
        if names_of(front).contains(fields.last().0) {
            let i = choose|i: int| 0 <= i < front.len() && names_of(front)[i] == fields.last().0;
            assert(names_of(fields)[i] == names_of(fields)[fields.len() - 1]);
        }
        assert(front.push(fields.last()) =~= fields);
    }
}

/// The fields as they are written start with the first field.
pub proof fn lemma_encode_fields_first(fields: Seq<(Seq<char>, bool)>)
    requires
        fields.len() > 0,
    ensures
        encode_fields(fields) == encode_string(fields[0].0) + encode_bool(fields[0].1)
            + encode_fields(fields.skip(1)),
    decreases fields.len(),
{
    let front = fields.drop_last();
    let last = encode_string(fields.last().0) + encode_bool(fields.last().1);
    let first = encode_string(fields[0].0) + encode_bool(fields[0].1);
    if front.len() == 0 {
        assert(fields.skip(1) =~= Seq::empty());
        assert(encode_fields(front) =~= Seq::<u8>::empty());
        assert(encode_fields(fields.skip(1)) =~= Seq::<u8>::empty());
        assert(fields.last() == fields[0]);
        assert(encode_fields(fields) =~= first + encode_fields(fields.skip(1)));
    } else {
        lemma_encode_fields_first(front);
        assert(fields.skip(1).drop_last() =~= front.skip(1));
        assert(encode_fields(fields) =~= first + encode_fields(fields.skip(1)));
    }
}

/// Fields that were written one after the other are read back as they
/// were.
pub proof fn lemma_fields_round_trip(fields: Seq<(Seq<char>, bool)>, rest: Seq<u8>)
    requires
        names_fit(fields),
    ensures
        decode_repeat(encode_fields(fields) + rest, fields.len(), field_decoder()) == Ok::<
            (Seq<(Seq<char>, bool)>, Seq<u8>),
            FormatError,
        >((fields, rest)),
    decreases fields.len(),
{
    if fields.len() == 0 {
        assert(encode_fields(fields) + rest =~= rest);
        assert(fields =~= Seq::empty());
    } else {
        let tail = fields.skip(1);
        let name = encode_string(fields[0].0);
        let flag = encode_bool(fields[0].1);
        let after = encode_fields(tail) + rest;
        lemma_encode_fields_first(fields);
        assert(encode_fields(fields) + rest =~= name + (flag + after));
        lemma_string_round_trip(fields[0].0, flag + after);
        lemma_bool_round_trip(fields[0].1, after);
        assert forall|i: int| 0 <= i < tail.len() implies encode_utf8(#[trigger] tail[i].0).len()
            <= u32::MAX by {
            assert(tail[i] == fields[i + 1]);
        }
        lemma_fields_round_trip(tail, rest);
        assert(seq![fields[0]] + tail =~= fields);
    }
}

/// The file of field names that is written for a list of fields is read
/// back as that list, and what follows the file is left unread.
pub proof fn lemma_field_infos_round_trip(fields: Seq<(Seq<char>, bool)>, rest: Seq<u8>)
    requires
        fields.len() <= u32::MAX,
        names_fit(fields),
    ensures
        decode_field_infos(encode_field_infos(fields) + rest) == Ok::<
            (Seq<(Seq<char>, bool)>, Seq<u8>),
            FormatError,
        >((fields, rest)),
{
    assert(encode_field_infos(fields) + rest =~= encode_varint(fields.len()) + (encode_fields(
        fields,
    ) + rest));
    lemma_vint_round_trip(fields.len() as u32, encode_fields(fields) + rest);
    lemma_fields_round_trip(fields, rest);
}

impl View for FieldInfos {
    type V = Seq<(Seq<char>, bool)>;

    closed spec fn view(&self) -> Seq<(Seq<char>, bool)> {
        Seq::new(
            self.by_number@.len(),
            |i: int| (self.by_number@[i].name@, self.by_number@[i].is_indexed),
        )
    }
}

impl FieldInfos {
    /// The two ways in agree: the field with number `i` stands at place `i`,
    /// and a name leads to the place of the field that has it.
    pub closed spec fn wf(&self) -> bool {
        &&& self.by_number@.len() <= u32::MAX
        &&& forall|i: int|
            0 <= i < self.by_number@.len() ==> (#[trigger] self.by_number@[i]).number == i
                && self.by_name@.contains_key(self.by_number@[i].name@)
                && self.by_name@[self.by_number@[i].name@] == i
        &&& forall|name: Seq<char>| #[trigger]
            self.by_name@.contains_key(name) ==> self.by_name@[name] < self.by_number@.len()
                && self.by_number@[self.by_name@[name] as int].name@ == name
    }

    /// No name comes twice, and the list is never longer than `u32::MAX`.
    pub proof fn lemma_distinct_names(&self)
        requires
            self.wf(),
        ensures
            names_of(self@).no_duplicates(),
            self@.len() <= u32::MAX,
    {
        assert forall|i: int, j: int|
            0 <= i < self@.len() && 0 <= j < self@.len() && i != j implies names_of(self@)[i]
            != names_of(self@)[j] by {
            assert(self.by_number@[i].number == i);
            assert(self.by_number@[j].number == j);
        }
    }

    /// Writing a list of fields and reading the file into an empty list
    /// gives the same names under the same numbers, with the same flags.
    pub proof fn lemma_write_then_read(&self, rest: Seq<u8>)
        requires
            self.wf(),
            names_fit(self@),
        ensures
            decode_field_infos(encode_field_infos(self@) + rest) == Ok::<
                (Seq<(Seq<char>, bool)>, Seq<u8>),
                FormatError,
            >((self@, rest)),
            add_all(Seq::empty(), self@) == self@,
    {
        self.lemma_distinct_names();
        lemma_field_infos_round_trip(self@, rest);
        lemma_add_all_distinct(self@);
    }

    proof fn lemma_contains(&self, name: Seq<char>)
        requires
            self.wf(),
        ensures
            self.by_name@.contains_key(name) <==> names_of(self@).contains(name),
            self.by_name@.contains_key(name) ==> self@[self.by_name@[name] as int].0 == name,
    {
        if self.by_name@.contains_key(name) {
            let i = self.by_name@[name] as int;
            assert(names_of(self@)[i] == name);
        }
        if names_of(self@).contains(name) {
            let i = choose|i: int| 0 <= i < names_of(self@).len() && names_of(self@)[i] == name;
            assert(self.by_number@[i].number == i);
        }
    }

    /// A list without fields.
    pub fn new() -> (infos: FieldInfos)
        ensures
            infos.wf(),
            infos@.len() == 0,
    {
        FieldInfos { by_number: Vec::new(), by_name: StringHashMap::new() }
    }

    /// Registers every field of the document, in the order of the document.
    pub fn add_doc(&mut self, doc: &Document)
        requires
            old(self).wf(),
        ensures
            final(self).wf(),
            final(self)@ == add_all(old(self)@, field_entries(doc.fields@)),
    {
        let mut i: usize = 0;
        while i < doc.fields.len()
            invariant
                i <= doc.fields@.len(),
                self.wf(),
                self@ == add_all(old(self)@, field_entries(doc.fields@).take(i as int)),
            decreases doc.fields@.len() - i,
        {
            proof {
                let entries = field_entries(doc.fields@);
                assert(entries.take(i + 1).drop_last() =~= entries.take(i as int));
            }
            self.add_field(&doc.fields[i]);
            i = i + 1;
        }
        proof {
            let entries = field_entries(doc.fields@);
            assert(entries.take(i as int) =~= entries);
        }
    }

    /// Registers every field of `other`, in the order of its numbers. The
    /// numbers they get here may differ from those they have there.
    pub fn add_other(&mut self, other: &FieldInfos)
        requires
            old(self).wf(),
        ensures
            final(self).wf(),
            final(self)@ == add_all(old(self)@, other@),
    {
        let mut i: usize = 0;
        while i < other.by_number.len()
            invariant
                i <= other.by_number@.len(),
                other.by_number@.len() == other@.len(),
                self.wf(),
                self@ == add_all(old(self)@, other@.take(i as int)),
            decreases other.by_number@.len() - i,
        {
            proof {
                assert(other@.take(i + 1).drop_last() =~= other@.take(i as int));
            }
            let name = other.by_number[i].name.clone();
            self.add(name, other.by_number[i].is_indexed);
            i = i + 1;
        }
        proof {
            assert(other@.take(i as int) =~= other@);
        }
    }

    pub fn add_field(&mut self, field: &Field)
        requires
            old(self).wf(),
        ensures
            final(self).wf(),
            final(self)@ == add_field(old(self)@, field.name@, field.is_indexed),
    {
        self.add(field.name.clone(), field.is_indexed);
    }

    /// Registers a field. A name that is registered keeps its number and its
    /// flag; a new name gets the next number.
    pub fn add(&mut self, name: String, is_indexed: bool)
        requires
            old(self).wf(),
        ensures
            final(self).wf(),
            final(self)@ == add_field(old(self)@, name@, is_indexed),
    {
        proof {
            self.lemma_contains(name@);
        }
        if self.by_name.contains_key(name.as_str()) {
            return ;
        }
        if self.by_number.len() >= u32::MAX as usize {
            return ;
        }
        let number = self.by_number.len() as u32;
        let info = Rc::new(FieldInfo { name: name.clone(), is_indexed, number });
        self.by_number.push(info);
        self.by_name.insert(name, number);
        proof {
            assert(self@ =~= old(self)@.push((name@, is_indexed)));
            assert forall|i: int| 0 <= i < self.by_number@.len() implies (
            #[trigger] self.by_number@[i]).number == i && self.by_name@.contains_key(
                self.by_number@[i].name@,
            ) && self.by_name@[self.by_number@[i].name@] == i by {
                if i < old(self).by_number@.len() {
                    assert(old(self).by_number@[i].number == i);
                }
            }
        }
    }

    pub fn get_field_number(&self, name: &str) -> (r: Option<u32>)
        requires
            self.wf(),
        ensures
            match r {
                Some(number) => number < self@.len() && self@[number as int].0 == name@,
                None => !names_of(self@).contains(name@),
            },
    {
        proof {
            self.lemma_contains(name@);
        }
        match self.by_name.get(name) {
            Some(number) => Some(*number),
            None => None,
        }
    }

    pub fn get_field_name(&self, number: u32) -> (r: Option<String>)
        ensures
            match r {
                Some(name) => number < self@.len() && name@ == self@[number as int].0,
                None => number >= self@.len(),
            },
    {
        if (number as usize) < self.by_number.len() {
            Some(self.by_number[number as usize].name.clone())
        } else {
            None
        }
    }

    pub fn get_field_info_by_name(&self, name: &str) -> (r: Option<Rc<FieldInfo>>)
        requires
            self.wf(),
        ensures
            match r {
                Some(info) => info.number < self@.len() && info.name@ == name@
                    && self@[info.number as int] == (name@, info.is_indexed),
                None => !names_of(self@).contains(name@),
            },
    {
        proof {
            self.lemma_contains(name@);
        }
        match self.by_name.get(name) {
            Some(number) => {
                let info = self.by_number[*number as usize].clone();
                Some(info)
            },
            None => None,
        }
    }

    pub fn get_field_info_by_number(&self, number: u32) -> (r: Option<Rc<FieldInfo>>)
        requires
            self.wf(),
        ensures
            match r {
                Some(info) => number < self@.len() && info.number == number && self@[number as int]
                    == (info.name@, info.is_indexed),
                None => number >= self@.len(),
            },
    {
        if (number as usize) < self.by_number.len() {
            let info = self.by_number[number as usize].clone();
            Some(info)
        } else {
            None
        }
    }

    /// The number of fields.
    pub fn size(&self) -> (n: usize)
        ensures
            n == self@.len(),
    {
        self.by_number.len()
    }

    /// Registers the fields that a file of field names lists, in the order
    /// of the file. The file is decoded as a whole first: when it cannot be
    /// decoded, nothing is registered.
    pub fn read_from<I: InputStream>(&mut self, input: &mut I) -> (r: Result<(), FormatError>)
        requires
            old(self).wf(),
        ensures
            final(self).wf(),
            old(self)@.len() <= final(self)@.len(),
            final(self)@.take(old(self)@.len() as int) == old(self)@,
            match decode_field_infos(old(input).remaining()) {
                Ok((entries, rest)) => r is Ok && final(self)@ == add_all(old(self)@, entries)
                    && final(input).remaining() == rest,
                Err(e) => r == Err::<(), FormatError>(e) && final(self)@ == old(self)@,
            },
    {
        proof {
            assert(self@.take(self@.len() as int) =~= self@);
        }
        let count = match input.read_vint() {
            Ok(count) => count,
            Err(e) => { return Err(e); },
        };
        let ghost start = input.remaining();
        let mut entries: Vec<(String, bool)> = Vec::new();
        let mut i: u32 = 0;
        while i < count
            invariant
                i <= count,
                self@ == old(self)@,
                self.wf(),
                then_items(
                    entry_views(entries@),
                    decode_repeat(input.remaining(), (count - i) as nat, field_decoder()),
                ) == decode_repeat(start, count as nat, field_decoder()),
                decode_field_infos(old(input).remaining()) == decode_repeat(
                    start,
                    count as nat,
                    field_decoder(),
                ),
            decreases count - i,
        {
            let name = match input.read_string() {
                Ok(name) => name,
                Err(e) => { return Err(e); },
            };
            let is_indexed = match input.read_bool() {
                Ok(is_indexed) => is_indexed,
                Err(e) => { return Err(e); },
            };
            proof {
                lemma_then_items_step(
                    entry_views(entries@),
                    (name@, is_indexed),
                    decode_repeat(input.remaining(), (count - i - 1) as nat, field_decoder()),
                );
                assert(entry_views(entries@.push((name, is_indexed))) =~= entry_views(
                    entries@,
                ).push((name@, is_indexed)));
            }
            entries.push((name, is_indexed));
            i = i + 1;
        }
        proof {
            assert(entry_views(entries@) + Seq::empty() =~= entry_views(entries@));
        }
        let ghost decoded = entry_views(entries@);
        let mut j: usize = 0;
        while j < entries.len()
            invariant
                j <= entries@.len(),
                decoded == entry_views(entries@),
                self.wf(),
                self@ == add_all(old(self)@, decoded.take(j as int)),
            decreases entries@.len() - j,
        {
            proof {
                assert(decoded.take(j + 1).drop_last() =~= decoded.take(j as int));
                assert(decoded.take(j + 1).last() == (entries@[j as int].0@, entries@[j as int].1));
            }
            self.add(entries[j].0.clone(), entries[j].1);
            j = j + 1;
        }
        proof {
            assert(decoded.take(j as int) =~= decoded);
            lemma_add_all_extends(old(self)@, decoded);
        }
        Ok(())
    }

    /// Writes the file of field names.
    pub fn write_to<O: OutputStream>(&self, output: &mut O)
        requires
            self.wf(),
            names_fit(self@),
            old(output).position() + encode_field_infos(self@).len() <= u64::MAX,
        ensures
            wrote(
                (old(output).bytes(), old(output).position()),
                (final(output).bytes(), final(output).position()),
                encode_field_infos(self@),
            ),
    {
        let ghost before = (old(output).bytes(), old(output).position());
        let ghost count = encode_varint(self@.len());
        output.write_vint(self.by_number.len() as u32);
        let mut i: usize = 0;
        proof {
            assert(count + encode_fields(self@.take(0)) =~= count);
        }
        while i < self.by_number.len()
            invariant
                i <= self.by_number@.len(),
                self.by_number@.len() == self@.len(),
                names_fit(self@),
                before.1 + encode_field_infos(self@).len() <= u64::MAX,
                count == encode_varint(self@.len()),
                wrote(
                    before,
                    (output.bytes(), output.position()),
                    count + encode_fields(self@.take(i as int)),
                ),
            decreases self.by_number@.len() - i,
        {
            let ghost at_name = (output.bytes(), output.position());
            let ghost written = count + encode_fields(self@.take(i as int));
            let ghost name = encode_string(self@[i as int].0);
            let ghost flag = encode_bool(self@[i as int].1);
            proof {
                lemma_encode_fields_prefix(self@, i + 1);
                assert(self@.take(i + 1).drop_last() =~= self@.take(i as int));
                assert(count + encode_fields(self@.take(i + 1)) =~= written + name + flag);
            }
            output.write_string(self.by_number[i].name.as_str());
            let ghost at_flag = (output.bytes(), output.position());
            output.write_bool(self.by_number[i].is_indexed);
            proof {
                lemma_wrote_then(before, at_name, at_flag, written, name);
                lemma_wrote_then(
                    before,
                    at_flag,
                    (output.bytes(), output.position()),
                    written + name,
                    flag,
                );
            }
            i = i + 1;
        }
        proof {
            assert(self@.take(i as int) =~= self@);
        }
    }

    /// Registers the fields that the file `filename` of the directory lists.
    /// The directory is asked to open the file, and its answer decides: its
    /// error is returned as it is; a file that cannot be decoded gives the
    /// error of the decoding; in both cases nothing is registered. The
    /// entries of a file that can be decoded are registered in its order.
    pub fn read<D: Directory>(&mut self, dir: &D, filename: &str) -> (r: Result<(), IndexError>)
        requires
            old(self).wf(),
        ensures
            final(self).wf(),
            old(self)@.len() <= final(self)@.len(),
            final(self)@.take(old(self)@.len() as int) == old(self)@,
            exists|opened: Result<D::Input, DirectoryError>| #[trigger]
                may_open(dir, filename@, opened) && field_infos_read_given(
                    opened,
                    old(self)@,
                    final(self)@,
                    r,
                ),
    {
        let opened = dir.open_file(filename);
        let ghost answer = opened;
        let mut input = match opened {
            Ok(input) => input,
            Err(e) => {
                let r = Err(IndexError::Directory(e));
                proof {
                    assert(self@.take(self@.len() as int) =~= self@);
                    assert(may_open(dir, filename@, answer) && field_infos_read_given(
                        answer,
                        old(self)@,
                        self@,
                        r,
                    ));
                }
                return r;
            },
        };
        let r = match self.read_from(&mut input) {
            Ok(()) => Ok(()),
            Err(e) => Err(IndexError::Format(e)),
        };
        proof {
            assert(may_open(dir, filename@, answer) && field_infos_read_given(
                answer,
                old(self)@,
                self@,
                r,
            ));
        }
        r
    }

    /// Creates the file `filename` in the directory, writes the fields into
    /// it from its start, and hands it back to the directory. When the
    /// directory cannot create the file, its error is returned and nothing
    /// is written; otherwise what is returned is the directory's answer to
    /// the file that is handed back.
    pub fn write<D: Directory>(&self, dir: &D, filename: &str) -> (r: Result<(), IndexError>)
        requires
            self.wf(),
            names_fit(self@),
            encode_field_infos(self@).len() <= u64::MAX,
        ensures
            exists|created: Result<D::Output, DirectoryError>| #[trigger]
                may_create(dir, filename@, created) && match created {
                    Ok(output) => handed_back(
                        dir,
                        filename@,
                        write_all_at(output.bytes(), 0, encode_field_infos(self@)),
                        r,
                    ),
                    Err(e) => r matches Err(IndexError::Directory(found)) && found == e,
                },
    {
        let created = dir.create_file(filename);
        let ghost answer = created;
        let mut output = match created {
            Ok(output) => output,
            Err(e) => {
                proof {
                    assert(may_create(dir, filename@, answer));
                }
                return Err(IndexError::Directory(e));
            },
        };
        output.seek(0);
        self.write_to(&mut output);
        output.flush();
        let ghost written = output.bytes();
        let closed = dir.close_file(filename, output);
        let r = match closed {
            Ok(()) => Ok(()),
            Err(e) => Err(IndexError::Directory(e)),
        };
        proof {
            assert(may_close_file(dir, filename@, written, closed));
            assert(handed_back(dir, filename@, written, r));
            assert(may_create(dir, filename@, answer));
        }
        r
    }
}

} // verus!
