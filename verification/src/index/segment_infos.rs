use vstd::prelude::*;
use vstd::string::{StrSliceExecFns, StringExecFns};

use super::codec_utils::{
    check_footer, check_header, decode_footer, decode_header, radix36, HeaderView, Id,
};
use super::error::IndexError;
use super::segment_commit_info::{
    self, decode_commit_record, decode_segment_ref, holds_record, lemma_record_read_err,
    lemma_record_read_ok, record_decoder, record_read, segment_described, CommitRecordView,
    SegmentCommitInfo,
};
use super::segment_info::{decode_version, read_version};
use crate::store::directory::{may_list, may_open, Directory, DirectoryError};
use crate::store::io_stream::{
    decode_map, decode_repeat, decode_u32, decode_u64, decode_vint, decode_vlong,
    lemma_decode_repeat_fails, lemma_decode_repeat_more, reads_view, Decoded, FormatError,
    InputStream,
};
use crate::store::util::{str_eq, text_views, StringMap};
use crate::version::Version;

verus! {

/// The state of an index at one commit.
#[derive(Debug, Clone)]
pub struct SegmentInfos {
    /// The generation of the commit, which the name of its file gives.
    pub generation: u64,
    /// The version of the engine that wrote the commit.
    pub version: Version,
    /// The major version of the engine that created the index.
    pub index_created_version_major: u32,
    /// Counts the changes to the index.
    pub sis_version: u64,
    /// Used to name new segments.
    pub sis_counter: u64,
    /// The segments, in the order of the file.
    pub segments: Vec<SegmentCommitInfo>,
    pub user_data: StringMap,
    /// The identifier of the commit.
    pub id: Id,
    /// The oldest version among the segments, when there is a segment.
    pub min_segment_lucene_version: Option<Version>,
}

/// What a commit file holds before its segments.
pub struct CommitHead {
    pub header: HeaderView,
    pub version: Version,
    pub index_created_version_major: u32,
    pub sis_version: u64,
    pub sis_counter: u64,
    pub num_segments: u32,
    pub min_segment_version: Option<Version>,
}

/// The digit of base 36 that a character stands for, in either case.
pub open spec fn digit_value(c: char) -> Option<nat> {
    if '0' <= c <= '9' {
        Some((c as u32 - '0' as u32) as nat)
    } else if 'a' <= c <= 'z' {
        Some((c as u32 - 'a' as u32 + 10) as nat)
    } else if 'A' <= c <= 'Z' {
        Some((c as u32 - 'A' as u32 + 10) as nat)
    } else {
        None
    }
}

/// The number that a row of digits of base 36 stands for, most significant
/// digit first; nothing when a character is no digit.
pub open spec fn digits_value(digits: Seq<char>) -> Option<nat>
    decreases digits.len(),
{
    if digits.len() == 0 {
        Some(0)
    } else {
        match (digits_value(digits.drop_last()), digit_value(digits.last())) {
            (Some(high), Some(low)) => Some(high * 36 + low),
            _ => None,
        }
    }
}

/// A text read as an unsigned 64-bit number in base 36: a plus sign may
/// come first, at least one digit must follow, nothing else may stand in
/// the text, and the number must fit.
pub open spec fn parse_radix36(text: Seq<char>) -> Option<u64> {
    let digits = if text.len() > 0 && text[0] == '+' {
        text.skip(1)
    } else {
        text
    };
    if digits.len() == 0 {
        None
    } else {
        match digits_value(digits) {
            Some(value) => if value <= u64::MAX {
                Some(value as u64)
            } else {
                None
            },
            None => None,
        }
    }
}

/// `u64::from_str_radix` of std with radix 36: the number that the text
/// stands for, or nothing when the text is empty, holds a character that is
/// no digit of base 36 (after one leading plus sign, which is allowed), or
/// stands for a number above `u64::MAX`.
#[verifier::external_body]
fn u64_from_radix36(text: &str) -> (r: Option<u64>)
    ensures
        r == parse_radix36(text@),
{
    match u64::from_str_radix(text, 36) {
        Ok(value) => Some(value),
        Err(_) => None,
    }
}

/// `radix_fmt::radix_36`, shown: the digits of `n` in base 36, `0` to `9`
/// and `a` to `z`, most significant first and without leading zeros.
#[verifier::external_body]
fn radix_36_text(n: u64) -> (digits: String)
    ensures
        digits@ == radix36(n as nat),
{
    format!("{}", radix_fmt::radix_36(n))
}

/// The generation that the name of a commit file gives: zero for
/// `segments`, and for `segments_` with a suffix the number that the suffix
/// stands for in base 36. Any other name gives none.
pub open spec fn generation_of(name: Seq<char>) -> Option<u64> {
    if name == "segments"@ {
        Some(0)
    } else if name.len() >= 9 && name.take(9) == "segments_"@ {
        parse_radix36(name.skip(9))
    } else {
        None
    }
}

/// Whether the name starts like that of a commit file.
pub open spec fn is_segments_name(name: Seq<char>) -> bool {
    name.len() >= 8 && name.take(8) == "segments"@
}

/// The greatest generation among the names that start like that of a commit
/// file: `Ok(None)` when no name does, and an error when one of them gives
/// no generation.
pub open spec fn last_generation(names: Seq<Seq<char>>) -> Result<Option<u64>, ()>
    decreases names.len(),
{
    if names.len() == 0 {
        Ok(None)
    } else {
        match last_generation(names.drop_last()) {
            Ok(best) => if is_segments_name(names.last()) {
                match (generation_of(names.last()), best) {
                    (Some(g), Some(b)) => Ok(Some(if g > b { g } else { b })),
                    (Some(g), None) => Ok(Some(g)),
                    (None, _) => Err(()),
                }
            } else {
                Ok(best)
            },
            Err(e) => Err(e),
        }
    }
}

/// Whether `text` starts with `prefix`.
fn starts_with(text: &str, prefix: &str) -> (r: bool)
    ensures
        r == (text@.len() >= prefix@.len() && text@.take(prefix@.len() as int) == prefix@),
{
    let n = prefix.unicode_len();
    if text.unicode_len() < n {
        return false;
    }
    let mut i: usize = 0;
    while i < n
        invariant
            i <= n,
            n == prefix@.len(),
            n <= text@.len(),
            forall|j: int| 0 <= j < i ==> text@[j] == prefix@[j],
        decreases n - i,
    {
        if text.get_char(i) != prefix.get_char(i) {
            proof {
                assert(text@.take(n as int)[i as int] != prefix@[i as int]);
            }
            return false;
        }
        i = i + 1;
    }
    proof {
        assert(text@.take(n as int) =~= prefix@);
    }
    true
}

pub fn get_generation_from_file_name(file_name: &str) -> (r: Option<u64>)
    ensures
        r == generation_of(file_name@),
{
    proof {
        reveal_strlit("segments");
        reveal_strlit("segments_");
    }
    let n = file_name.unicode_len();
    if n == 8 && starts_with(file_name, "segments") {
        proof {
            assert(file_name@.take(8) =~= file_name@);
        }
        Some(0)
    } else if starts_with(file_name, "segments_") {
        u64_from_radix36(file_name.substring_char(9, n))
    } else {
        proof {
            if file_name@ == "segments"@ {
                assert(file_name@.take(8) =~= file_name@);
            }
        }
        None
    }
}

/// The greatest generation that the names of the commit files give.
pub fn get_last_commit_generation(files: Vec<String>) -> (r: Result<u64, IndexError>)
    ensures
        match last_generation(text_views(files@)) {
            Ok(Some(generation)) => r matches Ok(found) && found == generation,
            Ok(None) => r matches Err(IndexError::NoSegmentsFile),
            Err(_) => r matches Err(IndexError::BadSegmentsFileName),
        },
{
    last_commit_generation(&files)
}

/// The greatest generation that the names of the commit files give.
pub fn last_commit_generation(files: &Vec<String>) -> (r: Result<u64, IndexError>)
    ensures
        match last_generation(text_views(files@)) {
            Ok(Some(generation)) => r matches Ok(found) && found == generation,
            Ok(None) => r matches Err(IndexError::NoSegmentsFile),
            Err(_) => r matches Err(IndexError::BadSegmentsFileName),
        },
{
    proof {
        reveal_strlit("segments");
    }
    let mut best: Option<u64> = None;
    let mut i: usize = 0;
    while i < files.len()
        invariant
            i <= files@.len(),
            "segments"@.len() == 8,
            last_generation(text_views(files@).take(i as int)) == Ok::<Option<u64>, ()>(best),
        decreases files@.len() - i,
    {
        proof {
            let names = text_views(files@);
            assert(names.take(i + 1).drop_last() =~= names.take(i as int));
            assert(names.take(i + 1).last() == files@[i as int]@);
        }
        if starts_with(files[i].as_str(), "segments") {
            match get_generation_from_file_name(files[i].as_str()) {
                Some(generation) => {
                    best = match best {
                        Some(b) => Some(if generation > b { generation } else { b }),
                        None => Some(generation),
                    };
                },
                None => {
                    proof {
                        lemma_last_generation_fails(text_views(files@), i + 1);
                    }
                    return Err(IndexError::BadSegmentsFileName);
                },
            }
        }
        i = i + 1;
    }
    proof {
        assert(text_views(files@).take(i as int) =~= text_views(files@));
    }
    match best {
        Some(generation) => Ok(generation),
        None => Err(IndexError::NoSegmentsFile),
    }
}

/// Once a name gives no generation, more names do not mend it.
pub proof fn lemma_last_generation_fails(names: Seq<Seq<char>>, i: int)
    requires
        0 <= i <= names.len(),
        last_generation(names.take(i)) is Err,
    ensures
        last_generation(names) is Err,
    decreases names.len(),
{
    if i == names.len() {
        assert(names.take(i) =~= names);
    } else {
        assert(names.drop_last().take(i) =~= names.take(i));
        lemma_last_generation_fails(names.drop_last(), i);
    }
}

/// The name under which the commit of a generation is written: `segments`
/// for the first, `segments_` followed by the generation in base 36 for
/// the others.
pub open spec fn segments_file_name(generation: u64) -> Seq<char> {
    if generation == 0 {
        "segments"@
    } else {
        "segments_"@ + radix36(generation as nat)
    }
}

pub fn file_name_from_generation(generation: u64) -> (name: String)
    ensures
        name@ == segments_file_name(generation),
{
    if generation == 0 {
        String::from_str("segments")
    } else {
        let digits = radix_36_text(generation);
        String::from_str("segments_").concat(digits.as_str())
    }
}

/// The place of the first name that gives the generation, or the number of
/// names when none does.
pub open spec fn first_of_generation(names: Seq<Seq<char>>, generation: u64) -> int
    decreases names.len(),
{
    if names.len() == 0 || generation_of(names[0]) == Some(generation) {
        0
    } else {
        1 + first_of_generation(names.skip(1), generation)
    }
}

/// The file of the last commit among the names that are listed, the
/// greatest generation among them being `generation`: the name under which
/// that generation is written, when it is listed and gives the generation;
/// otherwise the first listed name that gives it.
pub open spec fn last_commit_file(names: Seq<Seq<char>>, generation: u64) -> Seq<char> {
    let written = segments_file_name(generation);
    if names.contains(written) && generation_of(written) == Some(generation) {
        written
    } else {
        names[first_of_generation(names, generation)]
    }
}

/// The greatest generation is that of a listed name, and no listed name of
/// a commit gives a greater one.
pub proof fn lemma_last_generation_is_greatest(names: Seq<Seq<char>>)
    requires
        last_generation(names) is Ok,
    ensures
        forall|i: int|
            0 <= i < names.len() && is_segments_name(#[trigger] names[i]) ==> generation_of(
                names[i],
            ) is Some && last_generation(names)->Ok_0 is Some && generation_of(names[i])->Some_0
                <= last_generation(names)->Ok_0->Some_0,
        last_generation(names)->Ok_0 matches Some(g) ==> exists|i: int|
            0 <= i < names.len() && is_segments_name(names[i]) && #[trigger] generation_of(
                names[i],
            ) == Some(g),
    decreases names.len(),
{
    if names.len() > 0 {
        let front = names.drop_last();
        lemma_last_generation_is_greatest(front);
        assert forall|i: int|
            0 <= i < names.len() && is_segments_name(#[trigger] names[i]) implies generation_of(
            names[i],
        ) is Some && last_generation(names)->Ok_0 is Some && generation_of(names[i])->Some_0
            <= last_generation(names)->Ok_0->Some_0 by {
            if i < front.len() {
                assert(front[i] == names[i]);
            }
        }
        if last_generation(names)->Ok_0 is Some {
            let g = last_generation(names)->Ok_0->Some_0;
            if is_segments_name(names.last()) && generation_of(names.last()) == Some(g) {
                assert(generation_of(names[names.len() - 1]) == Some(g));
            } else {
                let i = choose|i: int|
                    0 <= i < front.len() && is_segments_name(front[i]) && #[trigger] generation_of(
                        front[i],
                    ) == Some(g);
                assert(generation_of(names[i]) == Some(g));
            }
        }
    }
}

/// Where some name gives the generation, the first such name is listed and
/// gives it.
pub proof fn lemma_first_of_generation(names: Seq<Seq<char>>, generation: u64, i: int)
    requires
        0 <= i < names.len(),
        generation_of(names[i]) == Some(generation),
    ensures
        0 <= first_of_generation(names, generation) <= i,
        generation_of(names[first_of_generation(names, generation)]) == Some(generation),
    decreases names.len(),
{
    if generation_of(names[0]) != Some(generation) {
        assert(names.skip(1)[i - 1] == names[i]);
        lemma_first_of_generation(names.skip(1), generation, i - 1);
        let first = first_of_generation(names.skip(1), generation);
        assert(names.skip(1)[first] == names[first + 1]);
    }
}

/// The file of the last commit is one of the listed names, it gives the
/// greatest generation, and no listed name of a commit gives a greater
/// one.
pub proof fn lemma_last_commit_file_is_listed(names: Seq<Seq<char>>)
    requires
        last_generation(names) is Ok,
        last_generation(names)->Ok_0 is Some,
    ensures
        names.contains(last_commit_file(names, last_generation(names)->Ok_0->Some_0)),
        generation_of(last_commit_file(names, last_generation(names)->Ok_0->Some_0))
            == last_generation(names)->Ok_0,
        forall|i: int|
            0 <= i < names.len() && is_segments_name(#[trigger] names[i]) ==> generation_of(
                names[i],
            ) is Some && generation_of(names[i])->Some_0 <= last_generation(
                names,
            )->Ok_0->Some_0,
{
    let g = last_generation(names)->Ok_0->Some_0;
    lemma_last_generation_is_greatest(names);
    let i = choose|i: int|
        0 <= i < names.len() && is_segments_name(names[i]) && #[trigger] generation_of(names[i])
            == Some(g);
    lemma_first_of_generation(names, g, i);
    let first = first_of_generation(names, g);
    assert(names[first] == names[first]);
}

/// Whether `name` is among the names.
fn is_listed(files: &Vec<String>, name: &str) -> (r: bool)
    ensures
        r == text_views(files@).contains(name@),
{
    let mut i: usize = 0;
    while i < files.len()
        invariant
            i <= files@.len(),
            forall|j: int| 0 <= j < i ==> text_views(files@)[j] != name@,
        decreases files@.len() - i,
    {
        if str_eq(files[i].as_str(), name) {
            proof {
                assert(text_views(files@)[i as int] == name@);
            }
            return true;
        }
        i = i + 1;
    }
    false
}

/// The name of the file of the last commit among the files that are
/// listed: always one of them.
pub fn last_segments_file_name(files: Vec<String>) -> (r: Result<String, IndexError>)
    ensures
        match last_generation(text_views(files@)) {
            Ok(Some(generation)) => r matches Ok(name) && name@ == last_commit_file(
                text_views(files@),
                generation,
            ),
            Ok(None) => r matches Err(IndexError::NoSegmentsFile),
            Err(_) => r matches Err(IndexError::BadSegmentsFileName),
        },
{
    let generation = match last_commit_generation(&files) {
        Ok(generation) => generation,
        Err(e) => { return Err(e); },
    };
    let ghost names = text_views(files@);
    let written = file_name_from_generation(generation);
    if is_listed(&files, written.as_str()) {
        match get_generation_from_file_name(written.as_str()) {
            Some(found) => {
                if found == generation {
                    return Ok(written);
                }
            },
            None => {},
        }
    }
    let mut i: usize = 0;
    proof {
        assert(names.skip(0) =~= names);
    }
    while i < files.len()
        invariant
            i <= files@.len(),
            names == text_views(files@),
            !(names.contains(segments_file_name(generation)) && generation_of(
                segments_file_name(generation),
            ) == Some(generation)),
            last_generation(names) == Ok::<Option<u64>, ()>(Some(generation)),
            first_of_generation(names, generation) == i + first_of_generation(
                names.skip(i as int),
                generation,
            ),
        decreases files@.len() - i,
    {
        proof {
            assert(names.skip(i as int)[0] == files@[i as int]@);
            assert(names.skip(i as int).skip(1) =~= names.skip(i + 1));
        }
        match get_generation_from_file_name(files[i].as_str()) {
            Some(found) => {
                if found == generation {
                    return Ok(files[i].clone());
                }
            },
            None => {},
        }
        i = i + 1;
    }
    proof {
        lemma_last_commit_file_is_listed(names);
        let listed = choose|k: int| 0 <= k < names.len() && names[k] == last_commit_file(
            names,
            generation,
        );
        lemma_first_of_generation(names, generation, listed);
        assert(false);
    }
    Err(IndexError::NoSegmentsFile)
}

/// What the name of the file of the last commit is, given what the
/// directory listed: the error of the directory, or what the listing gives.
pub open spec fn last_file_name_given(
    listing: Result<Vec<String>, DirectoryError>,
    r: Result<String, IndexError>,
) -> bool {
    match listing {
        Ok(files) => match last_generation(text_views(files@)) {
            Ok(Some(generation)) => r matches Ok(name) && name@ == last_commit_file(
                text_views(files@),
                generation,
            ),
            Ok(None) => r matches Err(IndexError::NoSegmentsFile),
            Err(_) => r matches Err(IndexError::BadSegmentsFileName),
        },
        Err(e) => r matches Err(IndexError::Directory(found)) && found == e,
    }
}

/// The name of the file of the last commit among the files that the
/// directory lists. The directory is asked for its listing once, and its
/// answer decides: its error is returned as it is, and a listing gives
/// the listed name of the greatest generation in it, or the error that
/// says why it has none.
pub fn get_last_segments_file_name<D: Directory>(directory: &D) -> (r: Result<String, IndexError>)
    ensures
        exists|listing: Result<Vec<String>, DirectoryError>| #[trigger]
            may_list(directory, listing) && last_file_name_given(listing, r),
{
    let listing = directory.list();
    let ghost answer = listing;
    let r = match listing {
        Ok(files) => last_segments_file_name(files),
        Err(e) => Err(IndexError::Directory(e)),
    };
    proof {
        assert(may_list(directory, answer) && last_file_name_given(answer, r));
    }
    r
}

pub open spec fn decode_commit_counters(s: Seq<u8>) -> Decoded<(u32, u64, u64, u32)> {
    match decode_vint(s) {
        Ok((created, rest)) => match decode_u64(rest) {
            Ok((sis_version, rest)) => match decode_vlong(rest) {
                Ok((sis_counter, rest)) => match decode_u32(rest) {
                    Ok((num_segments, rest)) => Ok(
                        ((created, sis_version, sis_counter, num_segments), rest),
                    ),
                    Err(e) => Err(e),
                },
                Err(e) => Err(e),
            },
            Err(e) => Err(e),
        },
        Err(e) => Err(e),
    }
}

/// What stands before the segments in a commit file: a header, the version
/// of the engine, the major version that created the index, the change
/// count, the name counter and the number of segments; and when there is a
/// segment, the oldest version among them.
pub open spec fn decode_commit_head(s: Seq<u8>) -> Decoded<CommitHead> {
    match decode_header(s) {
        Ok((header, rest)) => match decode_version(rest) {
            Ok((version, rest)) => match decode_commit_counters(rest) {
                Ok((counters, rest)) => if counters.3 > 0 {
                    match decode_version(rest) {
                        Ok((min_version, rest)) => Ok(
                            (
                                CommitHead {
                                    header,
                                    version,
                                    index_created_version_major: counters.0,
                                    sis_version: counters.1,
                                    sis_counter: counters.2,
                                    num_segments: counters.3,
                                    min_segment_version: Some(min_version),
                                },
                                rest,
                            ),
                        ),
                        Err(e) => Err(e),
                    }
                } else {
                    Ok(
                        (
                            CommitHead {
                                header,
                                version,
                                index_created_version_major: counters.0,
                                sis_version: counters.1,
                                sis_counter: counters.2,
                                num_segments: counters.3,
                                min_segment_version: None,
                            },
                            rest,
                        ),
                    )
                },
                Err(e) => Err(e),
            },
            Err(e) => Err(e),
        },
        Err(e) => Err(e),
    }
}

/// What stands after the segments in a commit file: the user data and the
/// footer.
pub open spec fn decode_commit_tail(s: Seq<u8>) -> Decoded<Map<Seq<char>, Seq<char>>> {
    match decode_map(s) {
        Ok((user_data, rest)) => match decode_footer(rest) {
            Ok((footer, rest)) => Ok((user_data, rest)),
            Err(e) => Err(e),
        },
        Err(e) => Err(e),
    }
}

/// A commit as the bytes of its file give it.
pub struct CommitView {
    pub head: CommitHead,
    pub records: Seq<CommitRecordView>,
    pub user_data: Map<Seq<char>, Seq<char>>,
}

/// A commit file: the head, one record for each segment that the head
/// counts, the user data and the footer.
pub open spec fn decode_commit(s: Seq<u8>) -> Decoded<CommitView> {
    match decode_commit_head(s) {
        Ok((head, rest)) => match decode_repeat(rest, head.num_segments as nat, record_decoder()) {
            Ok((records, rest)) => match decode_commit_tail(rest) {
                Ok((user_data, rest)) => Ok((CommitView { head, records, user_data }, rest)),
                Err(e) => Err(e),
            },
            Err(e) => Err(e),
        },
        Err(e) => Err(e),
    }
}

/// Whether a snapshot holds what the head of its file says.
pub open spec fn matches_head(infos: SegmentInfos, head: CommitHead) -> bool {
    &&& infos.id@ == head.header.id
    &&& infos.version == head.version
    &&& infos.index_created_version_major == head.index_created_version_major
    &&& infos.sis_version == head.sis_version
    &&& infos.sis_counter == head.sis_counter
    &&& infos.segments@.len() == head.num_segments
    &&& infos.min_segment_lucene_version == head.min_segment_version
}

/// Whether a snapshot holds what its file says: the head, the records of
/// the segments in the order of the file, and the user data.
pub open spec fn holds_commit(infos: SegmentInfos, commit: CommitView) -> bool {
    &&& matches_head(infos, commit.head)
    &&& infos.segments@.len() == commit.records.len()
    &&& forall|i: int|
        0 <= i < commit.records.len() ==> holds_record(
            #[trigger] infos.segments@[i],
            commit.records[i],
        )
    &&& infos.user_data@ == commit.user_data
}

/// What a commit file holds before its segments, as it is read.
pub struct CommitStart {
    pub header: super::codec_utils::Header,
    pub version: Version,
    pub index_created_version_major: u32,
    pub sis_version: u64,
    pub sis_counter: u64,
    pub num_segments: u32,
    pub min_segment_version: Option<Version>,
}

impl View for CommitStart {
    type V = CommitHead;

    open spec fn view(&self) -> CommitHead {
        CommitHead {
            header: self.header@,
            version: self.version,
            index_created_version_major: self.index_created_version_major,
            sis_version: self.sis_version,
            sis_counter: self.sis_counter,
            num_segments: self.num_segments,
            min_segment_version: self.min_segment_version,
        }
    }
}

/// Reads what stands before the segments in a commit file.
pub fn read_commit_head<I: InputStream>(input: &mut I) -> (r: Result<CommitStart, FormatError>)
    ensures
        reads_view(r, final(input).remaining(), decode_commit_head(old(input).remaining())),
{
    let header = match check_header(input) {
        Ok(v) => v,
        Err(e) => { return Err(e); },
    };
    let version = match read_version(input) {
        Ok(v) => v,
        Err(e) => { return Err(e); },
    };
    let index_created_version_major = match input.read_vint() {
        Ok(v) => v,
        Err(e) => { return Err(e); },
    };
    let sis_version = match input.read_long() {
        Ok(v) => v,
        Err(e) => { return Err(e); },
    };
    let sis_counter = match input.read_vlong() {
        Ok(v) => v,
        Err(e) => { return Err(e); },
    };
    let num_segments = match input.read_int() {
        Ok(v) => v,
        Err(e) => { return Err(e); },
    };
    let min_segment_version = if num_segments > 0 {
        match read_version(input) {
            Ok(v) => Some(v),
            Err(e) => { return Err(e); },
        }
    } else {
        None
    };
    Ok(
        CommitStart {
            header,
            version,
            index_created_version_major,
            sis_version,
            sis_counter,
            num_segments,
            min_segment_version,
        },
    )
}

/// Reads what stands after the segments in a commit file.
pub fn read_commit_tail<I: InputStream>(input: &mut I) -> (r: Result<StringMap, FormatError>)
    ensures
        reads_view(r, final(input).remaining(), decode_commit_tail(old(input).remaining())),
{
    let user_data = match input.read_map() {
        Ok(v) => v,
        Err(e) => { return Err(e); },
    };
    match check_footer(input) {
        Ok(_) => Ok(user_data),
        Err(e) => Err(e),
    }
}

/// Why a commit whose head says `n` segments is not read, `rest` being
/// what follows the head: one of its records is not read, all records
/// before it being decoded; or all records are decoded and what stands
/// after them cannot be.
pub open spec fn commit_fails<D: Directory>(
    directory: &D,
    n: nat,
    rest: Seq<u8>,
    e: IndexError,
) -> bool {
    ||| exists|k: nat|
        k < n && (#[trigger] decode_repeat(rest, k, record_decoder())) is Ok && record_read(
            directory,
            decode_repeat(rest, k, record_decoder())->Ok_0.1,
            Err(e),
            Seq::empty(),
        )
    ||| decode_repeat(rest, n, record_decoder()) is Ok && (decode_commit_tail(
        decode_repeat(rest, n, record_decoder())->Ok_0.1,
    ) matches Err(f) && e matches IndexError::Format(found) && found == f)
}

/// What reading the commit that `bytes` hold gives. A head that cannot be
/// decoded gives its error. A snapshot is returned only when the whole
/// file can be decoded; it has the given generation and holds what the
/// file says, and each of its segments is what the file of that segment
/// in the directory says. An error is that of the first record that is
/// not read, or that of what stands after the records.
pub open spec fn commit_decoded<D: Directory>(
    directory: &D,
    generation: u64,
    bytes: Seq<u8>,
    r: Result<SegmentInfos, IndexError>,
) -> bool {
    match decode_commit_head(bytes) {
        Ok((head, rest)) => match r {
            Ok(infos) => infos.generation == generation && decode_commit(bytes) is Ok
                && holds_commit(infos, decode_commit(bytes)->Ok_0.0) && forall|i: int|
                0 <= i < infos.segments@.len() ==> segment_described(
                    directory,
                    #[trigger] infos.segments@[i],
                ),
            Err(e) => commit_fails(directory, head.num_segments as nat, rest, e),
        },
        Err(f) => r matches Err(IndexError::Format(found)) && found == f,
    }
}

/// A commit without segments asks nothing of the directory: it is read
/// when what stands after its head can be decoded, and fails with the
/// error of that decoding when it cannot.
pub proof fn lemma_commit_without_segments<D: Directory>(
    directory: &D,
    generation: u64,
    bytes: Seq<u8>,
    r: Result<SegmentInfos, IndexError>,
)
    requires
        commit_decoded(directory, generation, bytes, r),
        decode_commit_head(bytes) is Ok,
        decode_commit_head(bytes)->Ok_0.0.num_segments == 0,
    ensures
        match decode_commit_tail(decode_commit_head(bytes)->Ok_0.1) {
            Ok((user_data, after)) => r matches Ok(infos) && infos.generation == generation
                && infos.segments@.len() == 0 && infos.user_data@ == user_data
                && matches_head(infos, decode_commit_head(bytes)->Ok_0.0),
            Err(f) => r matches Err(IndexError::Format(found)) && found == f,
        },
{
    let rest = decode_commit_head(bytes)->Ok_0.1;
    assert(decode_repeat(rest, 0, record_decoder()) == Ok::<
        (Seq<CommitRecordView>, Seq<u8>),
        FormatError,
    >((Seq::empty(), rest)));
}

/// A commit whose first record has a reference that cannot be decoded
/// fails with the error of that decoding, whatever the directory holds.
pub proof fn lemma_commit_with_cut_reference<D: Directory>(
    directory: &D,
    generation: u64,
    bytes: Seq<u8>,
    r: Result<SegmentInfos, IndexError>,
)
    requires
        commit_decoded(directory, generation, bytes, r),
        decode_commit_head(bytes) is Ok,
        decode_commit_head(bytes)->Ok_0.0.num_segments > 0,
        decode_segment_ref(decode_commit_head(bytes)->Ok_0.1) is Err,
    ensures
        r matches Err(IndexError::Format(found)) && found == decode_segment_ref(
            decode_commit_head(bytes)->Ok_0.1,
        )->Err_0,
{
    reveal(decode_commit_record);
    let (head, rest) = decode_commit_head(bytes)->Ok_0;
    let n = head.num_segments as nat;
    assert(decode_repeat(rest, 1, record_decoder()) is Err);
    lemma_decode_repeat_fails(rest, 1, n, record_decoder());
    assert(decode_repeat(rest, 0, record_decoder()) == Ok::<
        (Seq<CommitRecordView>, Seq<u8>),
        FormatError,
    >((Seq::empty(), rest)));
    match r {
        Ok(infos) => {},
        Err(e) => {
            let k = choose|k: nat|
                k < n && (#[trigger] decode_repeat(rest, k, record_decoder())) is Ok
                    && record_read(
                    directory,
                    decode_repeat(rest, k, record_decoder())->Ok_0.1,
                    Err(e),
                    Seq::empty(),
                );
            if k >= 1 {
                lemma_decode_repeat_fails(rest, 1, k, record_decoder());
            }
            lemma_record_read_err(directory, rest, e, Seq::empty());
        },
    }
}

/// Reads a commit from the bytes of its file, and each of its segments
/// from the directory.
pub fn read_segment_infos_from<I: InputStream, D: Directory>(
    input: &mut I,
    directory: &D,
    generation: u64,
) -> (r: Result<SegmentInfos, IndexError>)
    ensures
        commit_decoded(directory, generation, old(input).remaining(), r),
        r is Ok ==> final(input).remaining() == decode_commit(old(input).remaining())->Ok_0.1,
{
    let head = match read_commit_head(input) {
        Ok(v) => v,
        Err(e) => { return Err(IndexError::Format(e)); },
    };
    let num_segments = head.num_segments;
    let ghost start = input.remaining();
    let ghost mut done: Seq<CommitRecordView> = Seq::empty();
    let mut segments: Vec<SegmentCommitInfo> = Vec::new();
    let mut i: u32 = 0;
    while i < num_segments
        invariant
            i <= num_segments,
            num_segments == head.num_segments,
            segments@.len() == i,
            done.len() == i,
            forall|k: int|
                0 <= k < i ==> holds_record(#[trigger] segments@[k], done[k]) && segment_described(
                    directory,
                    segments@[k],
                ),
            decode_repeat(start, i as nat, record_decoder()) == Ok::<
                (Seq<CommitRecordView>, Seq<u8>),
                FormatError,
            >((done, input.remaining())),
            decode_commit_head(old(input).remaining()) == Ok::<(CommitHead, Seq<u8>), FormatError>(
                (head@, start),
            ),
        decreases num_segments - i,
    {
        let ghost here = input.remaining();
        let read = segment_commit_info::read(input, directory);
        proof {
            lemma_decode_repeat_more(start, i as nat, record_decoder());
        }
        let segment = match read {
            Ok(v) => v,
            Err(e) => {
                proof {
                    lemma_record_read_err(directory, here, e, input.remaining());
                    assert(record_read(directory, here, Err(e), Seq::empty()));
                    assert(decode_repeat(start, i as nat, record_decoder()) is Ok);
                    assert(commit_fails(directory, num_segments as nat, start, e));
                }
                return Err(e);
            },
        };
        proof {
            lemma_record_read_ok(directory, here, segment, input.remaining());
            done = done.push(decode_commit_record(here)->Ok_0.0);
        }
        segments.push(segment);
        i = i + 1;
    }
    let user_data = match read_commit_tail(input) {
        Ok(v) => v,
        Err(e) => {
            proof {
                assert(commit_fails(directory, num_segments as nat, start, IndexError::Format(e)));
            }
            return Err(IndexError::Format(e));
        },
    };
    let infos = SegmentInfos {
        generation,
        version: head.version,
        index_created_version_major: head.index_created_version_major,
        sis_version: head.sis_version,
        sis_counter: head.sis_counter,
        segments,
        user_data,
        id: head.header.id,
        min_segment_lucene_version: head.min_segment_version,
    };
    proof {
        let commit = CommitView { head: head@, records: done, user_data: user_data@ };
        assert(decode_commit(old(input).remaining()) == Ok::<(CommitView, Seq<u8>), FormatError>(
            (commit, input.remaining()),
        ));
        assert(holds_commit(infos, commit));
    }
    Ok(infos)
}

/// What reading a commit gives, given the generation of its file and what
/// the directory answered when it was asked to open the file: the error of
/// the directory as it is, or what reading the bytes of the file gives.
pub open spec fn commit_read_given<D: Directory>(
    directory: &D,
    generation: u64,
    opened: Result<D::Input, DirectoryError>,
    r: Result<SegmentInfos, IndexError>,
) -> bool {
    match opened {
        Ok(input) => commit_decoded(directory, generation, input.remaining(), r),
        Err(e) => r matches Err(IndexError::Directory(found)) && found == e,
    }
}

/// What reading the commit of the file `name` gives. A name that gives no
/// generation is refused; otherwise the directory is asked to open the
/// file, and its answer decides.
pub open spec fn commit_read<D: Directory>(
    directory: &D,
    name: Seq<char>,
    r: Result<SegmentInfos, IndexError>,
) -> bool {
    match generation_of(name) {
        Some(generation) => exists|opened: Result<D::Input, DirectoryError>| #[trigger]
            may_open(directory, name, opened) && commit_read_given(
                directory,
                generation,
                opened,
                r,
            ),
        None => r matches Err(IndexError::BadSegmentsFileName),
    }
}

/// Reads the commit that the file `segments_file` of the directory holds.
/// A name that gives no generation is refused before the directory is
/// asked for anything.
pub fn read_segment_infos<D: Directory>(directory: &D, segments_file: &str) -> (r: Result<
    SegmentInfos,
    IndexError,
>)
    ensures
        commit_read(directory, segments_file@, r),
{
    let generation = match get_generation_from_file_name(segments_file) {
        Some(generation) => generation,
        None => { return Err(IndexError::BadSegmentsFileName); },
    };
    let opened = directory.open_file(segments_file);
    let ghost answer = opened;
    let mut input = match opened {
        Ok(input) => input,
        Err(e) => {
            let r = Err(IndexError::Directory(e));
            proof {
                assert(may_open(directory, segments_file@, answer) && commit_read_given(
                    directory,
                    generation,
                    answer,
                    r,
                ));
            }
            return r;
        },
    };
    let r = read_segment_infos_from(&mut input, directory, generation);
    proof {
        assert(may_open(directory, segments_file@, answer) && commit_read_given(
            directory,
            generation,
            answer,
            r,
        ));
    }
    r
}

/// What reading the last commit gives, given what the directory listed:
/// the error of the directory, the error that says why the listing names
/// no commit, or what reading the file of the greatest generation gives.
pub open spec fn latest_read_given<D: Directory>(
    directory: &D,
    listing: Result<Vec<String>, DirectoryError>,
    r: Result<SegmentInfos, IndexError>,
) -> bool {
    match listing {
        Ok(files) => match last_generation(text_views(files@)) {
            Ok(Some(generation)) => commit_read(
                directory,
                last_commit_file(text_views(files@), generation),
                r,
            ),
            Ok(None) => r matches Err(IndexError::NoSegmentsFile),
            Err(_) => r matches Err(IndexError::BadSegmentsFileName),
        },
        Err(e) => r matches Err(IndexError::Directory(found)) && found == e,
    }
}

/// Reads the last commit of the directory: the one whose file has the
/// greatest generation among the files that the directory lists. The
/// directory is asked for its listing and then for that file, and its
/// answers decide.
pub fn read_latest_segment_infos<D: Directory>(directory: &D) -> (r: Result<
    SegmentInfos,
    IndexError,
>)
    ensures
        exists|listing: Result<Vec<String>, DirectoryError>| #[trigger]
            may_list(directory, listing) && latest_read_given(directory, listing, r),
{
    let found = get_last_segments_file_name(directory);
    let ghost listing = choose|listing: Result<Vec<String>, DirectoryError>| #[trigger]
        may_list(directory, listing) && last_file_name_given(listing, found);
    let r = match found {
        Ok(name) => read_segment_infos(directory, name.as_str()),
        Err(e) => Err(e),
    };
    proof {
        assert(may_list(directory, listing) && latest_read_given(directory, listing, r));
    }
    r
}

} // verus!
