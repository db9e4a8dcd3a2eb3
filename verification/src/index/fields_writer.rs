use vstd::prelude::*;
use vstd::string::StringExecFns;
use vstd::utf8::encode_utf8;

use super::error::{handed_back, IndexError};
use super::field_info::{names_of, FieldInfos};
use crate::document::{Document, Field};
use crate::store::directory::{may_close_file, may_create, Directory, DirectoryError};
use crate::store::io_stream::{
    encode_string, encode_u64, encode_varint, lemma_write_one, lemma_wrote_then, wrote,
    OutputStream,
};

verus! {

/// Writes the stored fields of documents, one document after the other,
/// into the data file of a segment, and into its index file the place in
/// the data file at which each document starts.
pub struct FieldsWriter<'a, D: Directory> {
    pub field_infos: &'a FieldInfos,
    pub dir: &'a D,
    /// The name of the data file.
    pub fields_name: String,
    pub fields_stream: D::Output,
    /// The name of the index file.
    pub index_name: String,
    pub index_stream: D::Output,
}

/// How many of the fields are stored.
pub open spec fn stored_count(fields: Seq<Field>) -> nat
    decreases fields.len(),
{
    if fields.len() == 0 {
        0
    } else {
        stored_count(fields.drop_last()) + if fields.last().is_stored {
            1nat
        } else {
            0nat
        }
    }
}

/// The number under which a name is registered.
pub open spec fn field_number(infos: Seq<(Seq<char>, bool)>, name: Seq<char>) -> int {
    names_of(infos).index_of(name)
}

/// A stored field as it is written: its number as a variable-length
/// integer, a byte that says whether it is analyzed, and its value as a
/// text.
pub open spec fn encode_stored_field(field: Field, number: nat) -> Seq<u8> {
    encode_varint(number) + seq![if field.is_analyzed { 1u8 } else { 0u8 }] + encode_string(
        field.value@,
    )
}

/// The stored fields among `fields`, as they are written one after the
/// other.
pub open spec fn encode_stored_fields(fields: Seq<Field>, infos: Seq<(Seq<char>, bool)>) -> Seq<u8>
    decreases fields.len(),
{
    if fields.len() == 0 {
        Seq::empty()
    } else if fields.last().is_stored {
        encode_stored_fields(fields.drop_last(), infos) + encode_stored_field(
            fields.last(),
            field_number(infos, fields.last().name@) as nat,
        )
    } else {
        encode_stored_fields(fields.drop_last(), infos)
    }
}

/// A document as it is written into the data file: the number of its
/// stored fields as a variable-length integer, then each of them.
pub open spec fn encode_stored_doc(fields: Seq<Field>, infos: Seq<(Seq<char>, bool)>) -> Seq<u8> {
    encode_varint(stored_count(fields)) + encode_stored_fields(fields, infos)
}

/// Every stored field is registered, and its value can be written.
pub open spec fn can_store(fields: Seq<Field>, infos: Seq<(Seq<char>, bool)>) -> bool {
    &&& fields.len() <= u32::MAX
    &&& forall|i: int|
        0 <= i < fields.len() && (#[trigger] fields[i]).is_stored ==> names_of(infos).contains(
            fields[i].name@,
        ) && encode_utf8(fields[i].value@).len() <= u32::MAX
}

pub proof fn lemma_stored_prefix(fields: Seq<Field>, infos: Seq<(Seq<char>, bool)>, i: int)
    requires
        0 <= i <= fields.len(),
    ensures
        encode_stored_fields(fields.take(i), infos).len() <= encode_stored_fields(
            fields,
            infos,
        ).len(),
        stored_count(fields.take(i)) <= stored_count(fields) <= fields.len(),
    decreases fields.len(),
{
    if i == fields.len() {
        assert(fields.take(i) =~= fields);
        if fields.len() > 0 {
            lemma_stored_prefix(fields.drop_last(), infos, i - 1);
        }
    } else {
        assert(fields.take(i) =~= fields.drop_last().take(i));
        lemma_stored_prefix(fields.drop_last(), infos, i);
    }
}

impl<'a, D: Directory> FieldsWriter<'a, D> {
    /// Creates the data file and the index file of the segment, and stands
    /// at the start of each. The directory is asked to create the data file
    /// first; its error for either file is returned as it is, and the index
    /// file is not asked for when the data file was refused.
    pub fn new(dir: &'a D, segment_id: &str, field_infos: &'a FieldInfos) -> (r: Result<
        FieldsWriter<'a, D>,
        IndexError,
    >)
        ensures
            match r {
                Ok(writer) => writer.field_infos == field_infos && writer.dir == dir
                    && writer.fields_name@ == segment_id@ + ".fdt"@ && writer.index_name@
                    == segment_id@ + ".fdx"@ && writer.fields_stream.position() == 0
                    && writer.index_stream.position() == 0,
                Err(e) => e is Directory,
            },
            exists|data: Result<D::Output, DirectoryError>| #[trigger]
                may_create(dir, segment_id@ + ".fdt"@, data) && match data {
                    Ok(fields_stream) => exists|index: Result<D::Output, DirectoryError>|
                     #[trigger]
                        may_create(dir, segment_id@ + ".fdx"@, index) && match index {
                            Ok(index_stream) => r matches Ok(writer)
                                && writer.fields_stream.bytes() == fields_stream.bytes()
                                && writer.index_stream.bytes() == index_stream.bytes(),
                            Err(e) => r matches Err(IndexError::Directory(found)) && found == e,
                        },
                    Err(e) => r matches Err(IndexError::Directory(found)) && found == e,
                },
    {
        let fields_name = String::from_str(segment_id).concat(".fdt");
        let data = dir.create_file(fields_name.as_str());
        let ghost data_answer = data;
        let mut fields_stream = match data {
            Ok(stream) => stream,
            Err(e) => {
                proof {
                    assert(may_create(dir, segment_id@ + ".fdt"@, data_answer));
                }
                return Err(IndexError::Directory(e));
            },
        };
        fields_stream.seek(0);
        let index_name = String::from_str(segment_id).concat(".fdx");
        let index = dir.create_file(index_name.as_str());
        let ghost index_answer = index;
        let mut index_stream = match index {
            Ok(stream) => stream,
            Err(e) => {
                proof {
                    assert(may_create(dir, segment_id@ + ".fdx"@, index_answer));
                    assert(may_create(dir, segment_id@ + ".fdt"@, data_answer));
                }
                return Err(IndexError::Directory(e));
            },
        };
        index_stream.seek(0);
        proof {
            assert(may_create(dir, segment_id@ + ".fdx"@, index_answer));
            assert(may_create(dir, segment_id@ + ".fdt"@, data_answer));
        }
        Ok(FieldsWriter { field_infos, dir, fields_name, fields_stream, index_name, index_stream })
    }

    /// Writes one document: into the index file the place at which the data
    /// file stands, as eight bytes, and into the data file the stored fields
    /// of the document.
    pub fn add_doc(&mut self, doc: &Document)
        requires
            old(self).field_infos.wf(),
            can_store(doc.fields@, old(self).field_infos@),
            old(self).index_stream.position() + 8 <= u64::MAX,
            old(self).fields_stream.position() + encode_stored_doc(
                doc.fields@,
                old(self).field_infos@,
            ).len() <= u64::MAX,
        ensures
            final(self).field_infos == old(self).field_infos,
            wrote(
                (old(self).index_stream.bytes(), old(self).index_stream.position()),
                (final(self).index_stream.bytes(), final(self).index_stream.position()),
                encode_u64(old(self).fields_stream.position() as u64),
            ),
            wrote(
                (old(self).fields_stream.bytes(), old(self).fields_stream.position()),
                (final(self).fields_stream.bytes(), final(self).fields_stream.position()),
                encode_stored_doc(doc.fields@, old(self).field_infos@),
            ),
    {
        let ghost infos = self.field_infos@;
        let ghost before = (self.fields_stream.bytes(), self.fields_stream.position());
        let start = self.fields_stream.stream_position();
        self.index_stream.write_long(start);

        let mut count: u32 = 0;
        let mut i: usize = 0;
        while i < doc.fields.len()
            invariant
                i <= doc.fields@.len(),
                doc.fields@.len() <= u32::MAX,
                count == stored_count(doc.fields@.take(i as int)),
                count <= i,
            decreases doc.fields@.len() - i,
        {
            proof {
                assert(doc.fields@.take(i + 1).drop_last() =~= doc.fields@.take(i as int));
            }
            if doc.fields[i].is_stored {
                count = count + 1;
            }
            i = i + 1;
        }
        proof {
            assert(doc.fields@.take(i as int) =~= doc.fields@);
            assert(encode_stored_fields(doc.fields@.take(0), infos) =~= Seq::<u8>::empty());
        }
        let ghost head = encode_varint(count as nat);
        self.fields_stream.write_vint(count);
        proof {
            assert(head + encode_stored_fields(doc.fields@.take(0), infos) =~= head);
        }
        let mut i: usize = 0;
        while i < doc.fields.len()
            invariant
                i <= doc.fields@.len(),
                infos == self.field_infos@,
                self.field_infos.wf(),
                self.field_infos == old(self).field_infos,
                wrote(
                    (old(self).index_stream.bytes(), old(self).index_stream.position()),
                    (self.index_stream.bytes(), self.index_stream.position()),
                    encode_u64(old(self).fields_stream.position() as u64),
                ),
                can_store(doc.fields@, infos),
                head == encode_varint(stored_count(doc.fields@)),
                before == (old(self).fields_stream.bytes(), old(self).fields_stream.position()),
                before.1 + encode_stored_doc(doc.fields@, infos).len() <= u64::MAX,
                wrote(
                    before,
                    (self.fields_stream.bytes(), self.fields_stream.position()),
                    head + encode_stored_fields(doc.fields@.take(i as int), infos),
                ),
            decreases doc.fields@.len() - i,
        {
            proof {
                lemma_stored_prefix(doc.fields@, infos, i + 1);
                assert(doc.fields@.take(i + 1).drop_last() =~= doc.fields@.take(i as int));
                assert(doc.fields@.take(i + 1).last() == doc.fields@[i as int]);
            }
            let field = &doc.fields[i];
            if field.is_stored {
                proof {
                    self.field_infos.lemma_distinct_names();
                }
                let number = match self.field_infos.get_field_number(field.name.as_str()) {
                    Some(number) => number,
                    None => 0,
                };
                let ghost written = head + encode_stored_fields(doc.fields@.take(i as int), infos);
                let ghost number_bytes = encode_varint(number as nat);
                let ghost flag = seq![if field.is_analyzed { 1u8 } else { 0u8 }];
                let ghost value = encode_string(field.value@);
                proof {
                    assert(names_of(infos)[number as int] == field.name@);
                    assert(field_number(infos, field.name@) == number);
                    assert(encode_stored_field(*field, number as nat) == number_bytes + flag
                        + value);
                    assert(head + encode_stored_fields(doc.fields@.take(i + 1), infos)
                        =~= written + number_bytes + flag + value);
                }
                let ghost s0 = (self.fields_stream.bytes(), self.fields_stream.position());
                self.fields_stream.write_vint(number);
                let ghost s1 = (self.fields_stream.bytes(), self.fields_stream.position());
                proof {
                    lemma_write_one(s1.0, s1.1, flag);
                }
                self.fields_stream.write_byte(if field.is_analyzed { 1 } else { 0 });
                let ghost s2 = (self.fields_stream.bytes(), self.fields_stream.position());
                self.fields_stream.write_string(field.value.as_str());
                let ghost s3 = (self.fields_stream.bytes(), self.fields_stream.position());
                proof {
                    lemma_wrote_then(before, s0, s1, written, number_bytes);
                    lemma_wrote_then(before, s1, s2, written + number_bytes, flag);
                    lemma_wrote_then(before, s2, s3, written + number_bytes + flag, value);
                }
            }
            i = i + 1;
        }
        proof {
            assert(doc.fields@.take(i as int) =~= doc.fields@);
        }
    }

    /// Hands the two files back to the directory with what was written into
    /// them: first the data file, and when the directory took it, the index
    /// file. What is returned is the error of the directory for the data
    /// file, or else its answer for the index file.
    pub fn close(self) -> (r: Result<(), IndexError>)
        ensures
            exists|first: Result<(), DirectoryError>| #[trigger]
                may_close_file(self.dir, self.fields_name@, self.fields_stream.bytes(), first)
                    && match first {
                    Ok(()) => handed_back(
                        self.dir,
                        self.index_name@,
                        self.index_stream.bytes(),
                        r,
                    ),
                    Err(e) => r matches Err(IndexError::Directory(found)) && found == e,
                },
    {
        let mut fields_stream = self.fields_stream;
        let mut index_stream = self.index_stream;
        fields_stream.flush();
        index_stream.flush();
        let first = self.dir.close_file(self.fields_name.as_str(), fields_stream);
        proof {
            assert(may_close_file(
                self.dir,
                self.fields_name@,
                self.fields_stream.bytes(),
                first,
            ));
        }
        match first {
            Ok(()) => {},
            Err(e) => { return Err(IndexError::Directory(e)); },
        }
        let second = self.dir.close_file(self.index_name.as_str(), index_stream);
        let r = match second {
            Ok(()) => Ok(()),
            Err(e) => Err(IndexError::Directory(e)),
        };
        proof {
            assert(may_close_file(
                self.dir,
                self.index_name@,
                self.index_stream.bytes(),
                second,
            ));
            assert(handed_back(self.dir, self.index_name@, self.index_stream.bytes(), r));
        }
        r
    }
}

} // verus!
