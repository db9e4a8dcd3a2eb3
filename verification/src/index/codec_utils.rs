use vstd::prelude::*;
use vstd::string::StringExecFns;

use crate::store::io_stream::{
    decode_bytes, decode_byte, decode_string, decode_text, decode_u32, reads, reads_view,
    Decoded, FormatError, InputStream,
};

verus! {

/// The number of bytes of an identifier.
pub const ID_LENGTH: usize = 16;

/// The number that every file with a header starts with.
pub const CODEC_MAGIC: u32 = 0x3fd76c17;

/// The digit of base 36 that stands for `d`: `0` to `9`, then `a` to `z`.
pub open spec fn radix36_digit(d: nat) -> char {
    if d < 10 {
        ('0' as u8 + d) as char
    } else {
        ('a' as u8 + d - 10) as char
    }
}

/// The digits of `n` in base 36, most significant first, without leading
/// zeros; a single `0` for zero.
pub open spec fn radix36(n: nat) -> Seq<char>
    decreases n,
{
    if n < 36 {
        seq![radix36_digit(n)]
    } else {
        radix36(n / 36).push(radix36_digit(n % 36))
    }
}

/// The number that `bytes` stand for, most significant byte first.
pub open spec fn be_value(bytes: Seq<u8>) -> nat
    decreases bytes.len(),
{
    if bytes.len() == 0 {
        0
    } else {
        be_value(bytes.drop_last()) * 256 + bytes.last() as nat
    }
}

/// `BigUint::from_bytes_be` followed by `BigUint::to_str_radix` with radix
/// 36, both of num-bigint: the bytes read as one unsigned number, most
/// significant byte first, and written in base 36 with the digits `0` to `9`
/// and `a` to `z`, without leading zeros.
#[verifier::external_body]
fn big_endian_radix36(bytes: &[u8]) -> (digits: String)
    ensures
        digits@ == radix36(be_value(bytes@)),
{
    num_bigint::BigUint::from_bytes_be(bytes).to_str_radix(36)
}

/// An opaque identifier of a segment or of a commit. A valid one has
/// sixteen bytes.
#[derive(Debug, Clone)]
pub struct Id(pub Vec<u8>);

impl View for Id {
    type V = Seq<u8>;

    open spec fn view(&self) -> Seq<u8> {
        self.0@
    }
}

/// How an identifier is shown: as a number in base 36, marked when its
/// length is not that of an identifier; an empty one as `(null)`.
pub open spec fn id_text(id: Seq<u8>) -> Seq<char> {
    if id.len() == 0 {
        "(null)"@
    } else if id.len() != ID_LENGTH {
        radix36(be_value(id)) + " (INVALID FORMAT)"@
    } else {
        radix36(be_value(id))
    }
}

impl Id {
    /// Whether the identifier has the length that the format asks for.
    pub fn is_valid(&self) -> (r: bool)
        ensures
            r == (self@.len() == ID_LENGTH),
    {
        self.0.len() == ID_LENGTH
    }

    pub fn to_string(&self) -> (text: String)
        ensures
            text@ == id_text(self@),
    {
        if self.0.len() == 0 {
            String::from_str("(null)")
        } else {
            let digits = big_endian_radix36(self.0.as_slice());
            if self.0.len() != ID_LENGTH {
                digits.concat(" (INVALID FORMAT)")
            } else {
                digits
            }
        }
    }
}

/// What stands at the start of every file that has a header.
#[derive(Debug, Clone)]
pub struct Header {
    pub codec: String,
    pub version: u32,
    pub id: Id,
    pub suffix: String,
}

pub struct HeaderView {
    pub codec: Seq<char>,
    pub version: u32,
    pub id: Seq<u8>,
    pub suffix: Seq<char>,
}

impl View for Header {
    type V = HeaderView;

    open spec fn view(&self) -> HeaderView {
        HeaderView { codec: self.codec@, version: self.version, id: self.id@, suffix: self.suffix@ }
    }
}

/// A suffix: one byte that gives its length, then that many bytes of UTF-8.
pub open spec fn decode_suffix(s: Seq<u8>) -> Decoded<Seq<char>> {
    match decode_byte(s) {
        Ok((len, rest)) => decode_text(rest, len as nat),
        Err(e) => Err(e),
    }
}

pub open spec fn decode_id(s: Seq<u8>) -> Decoded<Seq<u8>> {
    decode_bytes(s, ID_LENGTH as nat)
}

/// What follows the magic number in a header: the name of the codec, the
/// version of the format, an identifier and a suffix.
pub open spec fn decode_header_fields(s: Seq<u8>) -> Decoded<HeaderView> {
    match decode_string(s) {
        Ok((codec, rest)) => match decode_u32(rest) {
            Ok((version, rest)) => match decode_id(rest) {
                Ok((id, rest)) => match decode_suffix(rest) {
                    Ok((suffix, rest)) => Ok((HeaderView { codec, version, id, suffix }, rest)),
                    Err(e) => Err(e),
                },
                Err(e) => Err(e),
            },
            Err(e) => Err(e),
        },
        Err(e) => Err(e),
    }
}

/// A header: the magic number, which must be `CODEC_MAGIC`, then the fields.
pub open spec fn decode_header(s: Seq<u8>) -> Decoded<HeaderView> {
    match decode_u32(s) {
        Ok((magic, rest)) => if magic == CODEC_MAGIC {
            decode_header_fields(rest)
        } else {
            Err(FormatError::BadMagic)
        },
        Err(e) => Err(e),
    }
}

/// A footer: a magic number and the number of a checksum algorithm.
pub open spec fn decode_footer(s: Seq<u8>) -> Decoded<(u32, u32)> {
    match decode_u32(s) {
        Ok((magic, rest)) => match decode_u32(rest) {
            Ok((algorithm, rest)) => Ok(((magic, algorithm), rest)),
            Err(e) => Err(e),
        },
        Err(e) => Err(e),
    }
}

pub fn read_suffix<I: InputStream>(input: &mut I) -> (r: Result<String, FormatError>)
    ensures
        reads_view(r, final(input).remaining(), decode_suffix(old(input).remaining())),
{
    let len = match input.read_byte() {
        Ok(len) => len,
        Err(e) => { return Err(e); },
    };
    input.read_text(len as usize)
}

pub fn read_id<I: InputStream>(input: &mut I) -> (r: Result<Id, FormatError>)
    ensures
        reads_view(r, final(input).remaining(), decode_id(old(input).remaining())),
{
    match input.read_bytes(ID_LENGTH) {
        Ok(bytes) => Ok(Id(bytes)),
        Err(e) => Err(e),
    }
}

/// Reads a header. A file that does not start with the magic number is
/// refused once its first four bytes are read, and nothing after them is
/// touched.
pub fn check_header<I: InputStream>(input: &mut I) -> (r: Result<Header, FormatError>)
    ensures
        reads_view(r, final(input).remaining(), decode_header(old(input).remaining())),
        old(input).remaining().len() >= 4 && decode_u32(old(input).remaining())->Ok_0.0
            != CODEC_MAGIC ==> r == Err::<Header, FormatError>(FormatError::BadMagic)
            && final(input).remaining() == old(input).remaining().skip(4),
{
    let magic = match input.read_u32() {
        Ok(magic) => magic,
        Err(e) => { return Err(e); },
    };
    if magic != CODEC_MAGIC {
        return Err(FormatError::BadMagic);
    }
    let codec = match input.read_string() {
        Ok(codec) => codec,
        Err(e) => { return Err(e); },
    };
    let version = match input.read_int() {
        Ok(version) => version,
        Err(e) => { return Err(e); },
    };
    let id = match read_id(input) {
        Ok(id) => id,
        Err(e) => { return Err(e); },
    };
    let suffix = match read_suffix(input) {
        Ok(suffix) => suffix,
        Err(e) => { return Err(e); },
    };
    Ok(Header { codec, version, id, suffix })
}

/// Reads a footer. Its two numbers are returned as they stand.
pub fn check_footer<I: InputStream>(input: &mut I) -> (r: Result<(u32, u32), FormatError>)
    ensures
        reads(r, final(input).remaining(), decode_footer(old(input).remaining())),
{
    let magic = match input.read_int() {
        Ok(magic) => magic,
        Err(e) => { return Err(e); },
    };
    let algorithm = match input.read_int() {
        Ok(algorithm) => algorithm,
        Err(e) => { return Err(e); },
    };
    Ok((magic, algorithm))
}

} // verus!
