use vstd::prelude::*;

use super::codec_utils::{decode_id, read_id, Id};
use super::error::IndexError;
use super::segment_info::{self, decode_segment_info, segment_read_given, SegmentInfo};
use crate::store::directory::{may_open, Directory, DirectoryError};
use crate::store::io_stream::{
    decode_repeat, decode_set, decode_string, decode_u32, decode_u64, lemma_then_items_step,
    pair_decoder, reads_view, then_items, Decoded, FormatError, InputStream,
};
use crate::store::util::{pair_views, pairs_map, StringMap, StringSet};

verus! {

/// A segment as one commit sees it: what the segment is, and what the
/// commit knows of its deletions and of the files that were added later.
#[derive(Debug, Clone)]
pub struct SegmentCommitInfo {
    pub info: SegmentInfo,
    /// The generation of the deletions.
    pub del_gen: i64,
    /// The number of deleted documents.
    pub del_count: u32,
    /// The generation of the field infos.
    pub field_infos_gen: i64,
    /// The generation of the doc values.
    pub dv_gen: i64,
    /// The number of documents that are deleted softly.
    pub soft_delete_count: u32,
    /// The files that hold field infos.
    pub field_infos_files: StringSet,
    /// The file of doc values of each field that has one.
    pub dv_files: StringMap,
}

/// What a record of a commit says of a segment before the segment itself is
/// looked up: its name, its identifier and the name of its codec.
pub struct SegmentRef {
    pub name: String,
    pub id: Id,
    pub codec: String,
}

/// What a record of a commit says of a segment after that.
pub struct CommitFields {
    pub del_gen: i64,
    pub del_count: u32,
    pub field_infos_gen: i64,
    pub dv_gen: i64,
    pub soft_delete_count: u32,
    pub field_infos_files: StringSet,
    pub dv_files: StringMap,
}

pub struct CommitFieldsView {
    pub del_gen: i64,
    pub del_count: u32,
    pub field_infos_gen: i64,
    pub dv_gen: i64,
    pub soft_delete_count: u32,
    pub field_infos_files: Set<Seq<char>>,
    pub dv_files: Map<Seq<char>, Seq<char>>,
}

impl View for CommitFields {
    type V = CommitFieldsView;

    open spec fn view(&self) -> CommitFieldsView {
        CommitFieldsView {
            del_gen: self.del_gen,
            del_count: self.del_count,
            field_infos_gen: self.field_infos_gen,
            dv_gen: self.dv_gen,
            soft_delete_count: self.soft_delete_count,
            field_infos_files: self.field_infos_files@,
            dv_files: self.dv_files@,
        }
    }
}

/// The signed number that has the same sixty-four bits as `v`.
pub open spec fn signed(v: u64) -> i64 {
    if v < 0x8000_0000_0000_0000 {
        v as i64
    } else {
        (v - 0x1_0000_0000_0000_0000) as i64
    }
}

pub fn to_signed(v: u64) -> (r: i64)
    ensures
        r == signed(v),
{
    if v < 0x8000_0000_0000_0000 {
        v as i64
    } else {
        ((v - 0x8000_0000_0000_0000) as i64) + i64::MIN
    }
}

pub open spec fn decode_segment_ref(s: Seq<u8>) -> Decoded<(Seq<char>, Seq<u8>, Seq<char>)> {
    match decode_string(s) {
        Ok((name, rest)) => match decode_id(rest) {
            Ok((id, rest)) => match decode_string(rest) {
                Ok((codec, rest)) => Ok(((name, id, codec), rest)),
                Err(e) => Err(e),
            },
            Err(e) => Err(e),
        },
        Err(e) => Err(e),
    }
}

/// The files of doc values: their number as a 32-bit integer, then for each
/// the name of the field and the name of the file.
pub open spec fn decode_dv_files(s: Seq<u8>) -> Decoded<Map<Seq<char>, Seq<char>>> {
    match decode_u32(s) {
        Ok((n, rest)) => match decode_repeat(rest, n as nat, pair_decoder()) {
            Ok((pairs, rest)) => Ok((pairs_map(pairs), rest)),
            Err(e) => Err(e),
        },
        Err(e) => Err(e),
    }
}

pub open spec fn decode_commit_counts(s: Seq<u8>) -> Decoded<(u64, u32, u64, u64, u32)> {
    match decode_u64(s) {
        Ok((del_gen, rest)) => match decode_u32(rest) {
            Ok((del_count, rest)) => match decode_u64(rest) {
                Ok((field_infos_gen, rest)) => match decode_u64(rest) {
                    Ok((dv_gen, rest)) => match decode_u32(rest) {
                        Ok((soft, rest)) => Ok(
                            ((del_gen, del_count, field_infos_gen, dv_gen, soft), rest),
                        ),
                        Err(e) => Err(e),
                    },
                    Err(e) => Err(e),
                },
                Err(e) => Err(e),
            },
            Err(e) => Err(e),
        },
        Err(e) => Err(e),
    }
}

/// The part of a record that follows the reference to the segment: the
/// generation and the number of the deletions, the generations of field
/// infos and doc values, the number of soft deletions, the files of field
/// infos and the files of doc values.
pub open spec fn decode_commit_fields(s: Seq<u8>) -> Decoded<CommitFieldsView> {
    match decode_commit_counts(s) {
        Ok((counts, rest)) => match decode_set(rest) {
            Ok((field_infos_files, rest)) => match decode_dv_files(rest) {
                Ok((dv_files, rest)) => Ok(
                    (
                        CommitFieldsView {
                            del_gen: signed(counts.0),
                            del_count: counts.1,
                            field_infos_gen: signed(counts.2),
                            dv_gen: signed(counts.3),
                            soft_delete_count: counts.4,
                            field_infos_files,
                            dv_files,
                        },
                        rest,
                    ),
                ),
                Err(e) => Err(e),
            },
            Err(e) => Err(e),
        },
        Err(e) => Err(e),
    }
}

/// One record of a commit as the bytes of the commit give it.
pub struct CommitRecordView {
    pub name: Seq<char>,
    pub id: Seq<u8>,
    pub codec: Seq<char>,
    pub fields: CommitFieldsView,
}

/// One record of a commit: the reference to the segment, then what the
/// commit knows of it.
#[verifier::opaque]
pub open spec fn decode_commit_record(s: Seq<u8>) -> Decoded<CommitRecordView> {
    match decode_segment_ref(s) {
        Ok((found, rest)) => match decode_commit_fields(rest) {
            Ok((fields, rest)) => Ok(
                (CommitRecordView { name: found.0, id: found.1, codec: found.2, fields }, rest),
            ),
            Err(e) => Err(e),
        },
        Err(e) => Err(e),
    }
}

pub open spec fn record_decoder() -> spec_fn(Seq<u8>) -> Decoded<CommitRecordView> {
    |s: Seq<u8>| decode_commit_record(s)
}

/// Whether a segment as a commit sees it holds what the record says.
#[verifier::opaque]
pub open spec fn holds_record(segment: SegmentCommitInfo, record: CommitRecordView) -> bool {
    &&& segment.info.name@ == record.name
    &&& segment.info.id@ == record.id
    &&& record.fields == (CommitFieldsView {
        del_gen: segment.del_gen,
        del_count: segment.del_count,
        field_infos_gen: segment.field_infos_gen,
        dv_gen: segment.dv_gen,
        soft_delete_count: segment.soft_delete_count,
        field_infos_files: segment.field_infos_files@,
        dv_files: segment.dv_files@,
    })
}

pub fn read_segment_ref<I: InputStream>(input: &mut I) -> (r: Result<SegmentRef, FormatError>)
    ensures
        match decode_segment_ref(old(input).remaining()) {
            Ok((found, rest)) => r is Ok && (r->Ok_0.name@, r->Ok_0.id@, r->Ok_0.codec@) == found
                && final(input).remaining() == rest,
            Err(e) => r == Err::<SegmentRef, FormatError>(e),
        },
{
    let name = match input.read_string() {
        Ok(v) => v,
        Err(e) => { return Err(e); },
    };
    let id = match read_id(input) {
        Ok(v) => v,
        Err(e) => { return Err(e); },
    };
    let codec = match input.read_string() {
        Ok(v) => v,
        Err(e) => { return Err(e); },
    };
    Ok(SegmentRef { name, id, codec })
}

pub fn read_dv_files<I: InputStream>(input: &mut I) -> (r: Result<StringMap, FormatError>)
    ensures
        reads_view(r, final(input).remaining(), decode_dv_files(old(input).remaining())),
{
    let count = match input.read_int() {
        Ok(count) => count,
        Err(e) => { return Err(e); },
    };
    let ghost start = input.remaining();
    let mut map = StringMap::new();
    let mut i: u32 = 0;
    while i < count
        invariant
            i <= count,
            then_items(
                pair_views(map.entries@),
                decode_repeat(input.remaining(), (count - i) as nat, pair_decoder()),
            ) == decode_repeat(start, count as nat, pair_decoder()),
            decode_dv_files(old(input).remaining()) == match decode_repeat(
                start,
                count as nat,
                pair_decoder(),
            ) {
                Ok((pairs, rest)) => Ok((pairs_map(pairs), rest)),
                Err(e) => Err(e),
            },
        decreases count - i,
    {
        let field_name = match input.read_string() {
            Ok(v) => v,
            Err(e) => { return Err(e); },
        };
        let file_name = match input.read_string() {
            Ok(v) => v,
            Err(e) => { return Err(e); },
        };
        proof {
            lemma_then_items_step(
                pair_views(map.entries@),
                (field_name@, file_name@),
                decode_repeat(input.remaining(), (count - i - 1) as nat, pair_decoder()),
            );
            assert(pair_views(map.entries@.push((field_name, file_name))) =~= pair_views(
                map.entries@,
            ).push((field_name@, file_name@)));
        }
        map.insert(field_name, file_name);
        i = i + 1;
    }
    proof {
        assert(pair_views(map.entries@) + Seq::empty() =~= pair_views(map.entries@));
    }
    Ok(map)
}

pub fn read_commit_fields<I: InputStream>(input: &mut I) -> (r: Result<CommitFields, FormatError>)
    ensures
        reads_view(r, final(input).remaining(), decode_commit_fields(old(input).remaining())),
{
    let del_gen = match input.read_long() {
        Ok(v) => to_signed(v),
        Err(e) => { return Err(e); },
    };
    let del_count = match input.read_int() {
        Ok(v) => v,
        Err(e) => { return Err(e); },
    };
    let field_infos_gen = match input.read_long() {
        Ok(v) => to_signed(v),
        Err(e) => { return Err(e); },
    };
    let dv_gen = match input.read_long() {
        Ok(v) => to_signed(v),
        Err(e) => { return Err(e); },
    };
    let soft_delete_count = match input.read_int() {
        Ok(v) => v,
        Err(e) => { return Err(e); },
    };
    let field_infos_files = match input.read_set() {
        Ok(v) => v,
        Err(e) => { return Err(e); },
    };
    let dv_files = match read_dv_files(input) {
        Ok(v) => v,
        Err(e) => { return Err(e); },
    };
    Ok(
        CommitFields {
            del_gen,
            del_count,
            field_infos_gen,
            dv_gen,
            soft_delete_count,
            field_infos_files,
            dv_files,
        },
    )
}

/// What the commit knows of a segment, as the segment holds it.
pub open spec fn commit_fields_of(segment: SegmentCommitInfo) -> CommitFieldsView {
    CommitFieldsView {
        del_gen: segment.del_gen,
        del_count: segment.del_count,
        field_infos_gen: segment.field_infos_gen,
        dv_gen: segment.dv_gen,
        soft_delete_count: segment.soft_delete_count,
        field_infos_files: segment.field_infos_files@,
        dv_files: segment.dv_files@,
    }
}

/// What reading a record gives once its reference `found` is decoded, given
/// what the directory answered when it was asked to open the file of the
/// segment. `rest` is what follows the reference and `after` what is left
/// unread when a record is returned. The error of the directory comes
/// first, then that of the file of the segment, then that of the rest of
/// the record.
pub open spec fn record_read_given<I: InputStream>(
    found: (Seq<char>, Seq<u8>, Seq<char>),
    rest: Seq<u8>,
    opened: Result<I, DirectoryError>,
    r: Result<SegmentCommitInfo, IndexError>,
    after: Seq<u8>,
) -> bool {
    match opened {
        Ok(file) => match decode_segment_info(file.remaining(), found.0, found.1) {
            Ok((info, _)) => match decode_commit_fields(rest) {
                Ok((fields, end)) => r matches Ok(segment) && segment.info@ == info
                    && commit_fields_of(segment) == fields && after == end,
                Err(f) => r matches Err(IndexError::Format(e)) && e == f,
            },
            Err(f) => r matches Err(IndexError::Format(e)) && e == f,
        },
        Err(d) => r matches Err(IndexError::Directory(e)) && e == d,
    }
}

/// What reading the record at the front of `s` gives. A reference that
/// cannot be decoded gives its error; otherwise the directory is asked to
/// open the file of the segment that the reference names, and its answer
/// decides.
#[verifier::opaque]
pub open spec fn record_read<D: Directory>(
    directory: &D,
    s: Seq<u8>,
    r: Result<SegmentCommitInfo, IndexError>,
    after: Seq<u8>,
) -> bool {
    match decode_segment_ref(s) {
        Ok((found, rest)) => exists|opened: Result<D::Input, DirectoryError>| #[trigger]
            may_open(directory, found.0 + ".si"@, opened) && record_read_given(
                found,
                rest,
                opened,
                r,
                after,
            ),
        Err(f) => r matches Err(IndexError::Format(e)) && e == f,
    }
}

/// The segment is what its own file in the directory says of it.
#[verifier::opaque]
pub open spec fn segment_described<D: Directory>(
    directory: &D,
    segment: SegmentCommitInfo,
) -> bool {
    exists|opened: Result<D::Input, DirectoryError>| #[trigger]
        may_open(directory, segment.info.name@ + ".si"@, opened) && opened is Ok
            && decode_segment_info(
            opened->Ok_0.remaining(),
            segment.info.name@,
            segment.info.id@,
        ) is Ok && decode_segment_info(
            opened->Ok_0.remaining(),
            segment.info.name@,
            segment.info.id@,
        )->Ok_0.0 == segment.info@
}

/// A record that was read is the record that the bytes give, and its
/// segment is what the file of the segment says.
pub proof fn lemma_record_read_ok<D: Directory>(
    directory: &D,
    s: Seq<u8>,
    segment: SegmentCommitInfo,
    after: Seq<u8>,
)
    requires
        record_read(directory, s, Ok(segment), after),
    ensures
        decode_commit_record(s) is Ok,
        decode_commit_record(s)->Ok_0.1 == after,
        holds_record(segment, decode_commit_record(s)->Ok_0.0),
        segment_described(directory, segment),
{
    reveal(decode_commit_record);
    reveal(holds_record);
    reveal(record_read);
    reveal(segment_described);
    let (found, rest) = decode_segment_ref(s)->Ok_0;
    let opened = choose|opened: Result<D::Input, DirectoryError>| #[trigger]
        may_open(directory, found.0 + ".si"@, opened) && record_read_given(
            found,
            rest,
            opened,
            Ok(segment),
            after,
        );
    assert(may_open(directory, segment.info.name@ + ".si"@, opened));
}

/// A record that was not read failed with an error of the directory or of
/// the format; where its reference cannot be decoded, with the error of
/// that decoding. What is left unread plays no part then.
pub proof fn lemma_record_read_err<D: Directory>(
    directory: &D,
    s: Seq<u8>,
    e: IndexError,
    after: Seq<u8>,
)
    requires
        record_read(directory, s, Err(e), after),
    ensures
        e is Directory || e is Format,
        decode_segment_ref(s) matches Err(f) ==> e matches IndexError::Format(found) && found == f,
        forall|other: Seq<u8>| record_read(directory, s, Err(e), other),
{
    reveal(record_read);
    assert forall|other: Seq<u8>| record_read(directory, s, Err(e), other) by {
        if decode_segment_ref(s) is Ok {
            let (found, rest) = decode_segment_ref(s)->Ok_0;
            let opened = choose|opened: Result<D::Input, DirectoryError>| #[trigger]
                may_open(directory, found.0 + ".si"@, opened) && record_read_given(
                    found,
                    rest,
                    opened,
                    Err(e),
                    after,
                );
            assert(may_open(directory, found.0 + ".si"@, opened) && record_read_given(
                found,
                rest,
                opened,
                Err(e),
                other,
            ));
        }
    }
}

/// Reads one record of a commit: the reference to the segment from the
/// record, the segment itself from its own file in the directory, and the
/// rest from the record.
pub fn read<I: InputStream, D: Directory>(input: &mut I, directory: &D) -> (r: Result<
    SegmentCommitInfo,
    IndexError,
>)
    ensures
        record_read(directory, old(input).remaining(), r, final(input).remaining()),
{
    reveal(record_read);
    let segment = match read_segment_ref(input) {
        Ok(v) => v,
        Err(e) => { return Err(IndexError::Format(e)); },
    };
    let ghost found = (segment.name@, segment.id@, segment.codec@);
    let ghost rest = input.remaining();
    let described = segment_info::read(directory, segment.name.as_str(), &segment.id);
    let ghost opened = choose|opened: Result<D::Input, DirectoryError>| #[trigger]
        may_open(directory, found.0 + ".si"@, opened) && segment_read_given(
            opened,
            found.0,
            found.1,
            described,
        );
    let info = match described {
        Ok(v) => v,
        Err(e) => {
            let r = Err(e);
            proof {
                assert(may_open(directory, found.0 + ".si"@, opened) && record_read_given(
                    found,
                    rest,
                    opened,
                    r,
                    input.remaining(),
                ));
            }
            return r;
        },
    };
    let fields = match read_commit_fields(input) {
        Ok(v) => v,
        Err(e) => {
            let r = Err(IndexError::Format(e));
            proof {
                assert(may_open(directory, found.0 + ".si"@, opened) && record_read_given(
                    found,
                    rest,
                    opened,
                    r,
                    input.remaining(),
                ));
            }
            return r;
        },
    };
    let r = Ok(
        SegmentCommitInfo {
            info,
            del_gen: fields.del_gen,
            del_count: fields.del_count,
            field_infos_gen: fields.field_infos_gen,
            dv_gen: fields.dv_gen,
            soft_delete_count: fields.soft_delete_count,
            field_infos_files: fields.field_infos_files,
            dv_files: fields.dv_files,
        },
    );
    proof {
        assert(may_open(directory, found.0 + ".si"@, opened) && record_read_given(
            found,
            rest,
            opened,
            r,
            input.remaining(),
        ));
    }
    r
}

} // verus!
