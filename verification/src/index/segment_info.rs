use vstd::prelude::*;
use vstd::string::StringExecFns;

use super::codec_utils::{check_header, decode_header, Id};
use super::error::IndexError;
use crate::store::directory::{may_open, Directory, DirectoryError};
use crate::store::io_stream::{
    decode_byte, decode_map, decode_set, decode_u32, decode_vint, reads, reads_view, Decoded,
    FormatError, InputStream,
};
use crate::store::util::{StringMap, StringSet};
use crate::version::Version;

verus! {

/// What one segment is: read once from the file that describes it, and not
/// changed after that.
#[derive(Debug, Clone)]
pub struct SegmentInfo {
    /// The name of the segment.
    pub name: String,
    /// The identifier of the segment.
    pub id: Id,
    /// The version of the engine that wrote the segment.
    pub version: Version,
    /// The oldest version that contributed documents to the segment.
    pub min_version: Option<Version>,
    /// The number of documents in the segment.
    pub doc_count: u32,
    /// Whether the files of the segment are bundled into one.
    pub is_compound: bool,
    pub diagnostics: StringMap,
    /// The names of the files of the segment.
    pub files: StringSet,
    pub attributes: StringMap,
    /// The number of fields by which the segment is sorted.
    pub num_sort_fields: u32,
}

pub struct SegmentInfoView {
    pub name: Seq<char>,
    pub id: Seq<u8>,
    pub version: Version,
    pub min_version: Option<Version>,
    pub doc_count: u32,
    pub is_compound: bool,
    pub diagnostics: Map<Seq<char>, Seq<char>>,
    pub files: Set<Seq<char>>,
    pub attributes: Map<Seq<char>, Seq<char>>,
    pub num_sort_fields: u32,
}

impl View for SegmentInfo {
    type V = SegmentInfoView;

    open spec fn view(&self) -> SegmentInfoView {
        SegmentInfoView {
            name: self.name@,
            id: self.id@,
            version: self.version,
            min_version: self.min_version,
            doc_count: self.doc_count,
            is_compound: self.is_compound,
            diagnostics: self.diagnostics@,
            files: self.files@,
            attributes: self.attributes@,
            num_sort_fields: self.num_sort_fields,
        }
    }
}

/// A version: major, minor and bugfix number, each a variable-length
/// integer.
pub open spec fn decode_version(s: Seq<u8>) -> Decoded<Version> {
    match decode_vint(s) {
        Ok((major, rest)) => match decode_vint(rest) {
            Ok((minor, rest)) => match decode_vint(rest) {
                Ok((bugfix, rest)) => Ok((Version { major, minor, bugfix }, rest)),
                Err(e) => Err(e),
            },
            Err(e) => Err(e),
        },
        Err(e) => Err(e),
    }
}

/// A version that is there only if the byte before it is not zero.
pub open spec fn decode_optional_version(s: Seq<u8>) -> Decoded<Option<Version>> {
    match decode_byte(s) {
        Ok((flag, rest)) => if flag != 0 {
            match decode_version(rest) {
                Ok((version, rest)) => Ok((Some(version), rest)),
                Err(e) => Err(e),
            }
        } else {
            Ok((None, rest))
        },
        Err(e) => Err(e),
    }
}

/// The maps and the set at the end of the description of a segment, and the
/// number of sort fields after them.
pub open spec fn decode_segment_details(s: Seq<u8>, so_far: SegmentInfoView) -> Decoded<
    SegmentInfoView,
> {
    match decode_map(s) {
        Ok((diagnostics, rest)) => match decode_set(rest) {
            Ok((files, rest)) => match decode_map(rest) {
                Ok((attributes, rest)) => match decode_vint(rest) {
                    Ok((num_sort_fields, rest)) => Ok(
                        (
                            SegmentInfoView {
                                diagnostics,
                                files,
                                attributes,
                                num_sort_fields,
                                ..so_far
                            },
                            rest,
                        ),
                    ),
                    Err(e) => Err(e),
                },
                Err(e) => Err(e),
            },
            Err(e) => Err(e),
        },
        Err(e) => Err(e),
    }
}

/// The description of the segment `name` with identifier `id`, as the file
/// of the segment gives it: a header, the version, the oldest version if
/// there is one, the number of documents, the compound flag, diagnostics,
/// files, attributes and the number of sort fields.
pub open spec fn decode_segment_info(s: Seq<u8>, name: Seq<char>, id: Seq<u8>) -> Decoded<
    SegmentInfoView,
> {
    match decode_header(s) {
        Ok((header, rest)) => match decode_version(rest) {
            Ok((version, rest)) => match decode_optional_version(rest) {
                Ok((min_version, rest)) => match decode_u32(rest) {
                    Ok((doc_count, rest)) => match decode_byte(rest) {
                        Ok((compound, rest)) => decode_segment_details(
                            rest,
                            SegmentInfoView {
                                name,
                                id,
                                version,
                                min_version,
                                doc_count,
                                is_compound: compound != 0,
                                diagnostics: Map::empty(),
                                files: Set::empty(),
                                attributes: Map::empty(),
                                num_sort_fields: 0,
                            },
                        ),
                        Err(e) => Err(e),
                    },
                    Err(e) => Err(e),
                },
                Err(e) => Err(e),
            },
            Err(e) => Err(e),
        },
        Err(e) => Err(e),
    }
}

pub fn read_version<I: InputStream>(input: &mut I) -> (r: Result<Version, FormatError>)
    ensures
        reads(r, final(input).remaining(), decode_version(old(input).remaining())),
{
    let major = match input.read_vint() {
        Ok(v) => v,
        Err(e) => { return Err(e); },
    };
    let minor = match input.read_vint() {
        Ok(v) => v,
        Err(e) => { return Err(e); },
    };
    let bugfix = match input.read_vint() {
        Ok(v) => v,
        Err(e) => { return Err(e); },
    };
    Ok(Version { major, minor, bugfix })
}

/// Reads the description of a segment from the bytes of its file.
pub fn read_from<I: InputStream>(input: &mut I, segment_name: &str, segment_id: &Id) -> (r: Result<
    SegmentInfo,
    FormatError,
>)
    ensures
        reads_view(
            r,
            final(input).remaining(),
            decode_segment_info(old(input).remaining(), segment_name@, segment_id@),
        ),
{
    match check_header(input) {
        Ok(_) => {},
        Err(e) => { return Err(e); },
    }
    let version = match read_version(input) {
        Ok(v) => v,
        Err(e) => { return Err(e); },
    };
    let has_min_version = match input.read_byte() {
        Ok(v) => v != 0,
        Err(e) => { return Err(e); },
    };
    let min_version = if has_min_version {
        match read_version(input) {
            Ok(v) => Some(v),
            Err(e) => { return Err(e); },
        }
    } else {
        None
    };
    let doc_count = match input.read_int() {
        Ok(v) => v,
        Err(e) => { return Err(e); },
    };
    let is_compound = match input.read_byte() {
        Ok(v) => v != 0,
        Err(e) => { return Err(e); },
    };
    let diagnostics = match input.read_map() {
        Ok(v) => v,
        Err(e) => { return Err(e); },
    };
    let files = match input.read_set() {
        Ok(v) => v,
        Err(e) => { return Err(e); },
    };
    let attributes = match input.read_map() {
        Ok(v) => v,
        Err(e) => { return Err(e); },
    };
    let num_sort_fields = match input.read_vint() {
        Ok(v) => v,
        Err(e) => { return Err(e); },
    };
    Ok(
        SegmentInfo {
            name: String::from_str(segment_name),
            id: Id(segment_id.0.clone()),
            version,
            min_version,
            doc_count,
            is_compound,
            diagnostics,
            files,
            attributes,
            num_sort_fields,
        },
    )
}

/// The name of the file that describes a segment.
pub fn segment_file_name(segment_name: &str) -> (name: String)
    ensures
        name@ == segment_name@ + ".si"@,
{
    String::from_str(segment_name).concat(".si")
}

/// What reading the description of a segment gives, given what the
/// directory answered when it was asked to open the file of the segment:
/// the error of the directory, the error of the decoding, or what the file
/// says of the segment with that name and identifier.
pub open spec fn segment_read_given<I: InputStream>(
    opened: Result<I, DirectoryError>,
    name: Seq<char>,
    id: Seq<u8>,
    r: Result<SegmentInfo, IndexError>,
) -> bool {
    match opened {
        Ok(input) => match decode_segment_info(input.remaining(), name, id) {
            Ok((view, _)) => r matches Ok(info) && info@ == view,
            Err(f) => r matches Err(IndexError::Format(found)) && found == f,
        },
        Err(e) => r matches Err(IndexError::Directory(found)) && found == e,
    }
}

/// What reading the description of the segment `name` gives: the directory
/// is asked to open the file of the segment, and its answer decides.
pub open spec fn segment_read<D: Directory>(
    directory: &D,
    name: Seq<char>,
    id: Seq<u8>,
    r: Result<SegmentInfo, IndexError>,
) -> bool {
    exists|opened: Result<D::Input, DirectoryError>| #[trigger]
        may_open(directory, name + ".si"@, opened) && segment_read_given(opened, name, id, r)
}

/// Reads the description of a segment from its file in the directory.
pub fn read<D: Directory>(directory: &D, segment_name: &str, segment_id: &Id) -> (r: Result<
    SegmentInfo,
    IndexError,
>)
    ensures
        segment_read(directory, segment_name@, segment_id@, r),
{
    let si_file = segment_file_name(segment_name);
    let opened = directory.open_file(si_file.as_str());
    let ghost answer = opened;
    let r = match opened {
        Ok(mut input) => match read_from(&mut input, segment_name, segment_id) {
            Ok(info) => Ok(info),
            Err(e) => Err(IndexError::Format(e)),
        },
        Err(e) => Err(IndexError::Directory(e)),
    };
    proof {
        assert(may_open(directory, segment_name@ + ".si"@, answer) && segment_read_given(
            answer,
            segment_name@,
            segment_id@,
            r,
        ));
    }
    r
}

} // verus!
