use ferrocene::index::codec_utils::{check_footer, check_header, read_id, read_suffix, Id};
use ferrocene::store::ram_directory::{RamInputStream, RamOutputStream};
use ferrocene::store::util::{StringMap, StringSet};
use ferrocene::store::{FormatError, InputStream, OutputStream};

fn written(write: impl Fn(&mut RamOutputStream)) -> Vec<u8> {
    let mut out = RamOutputStream::new();
    write(&mut out);
    out.into_bytes()
}

#[test]
fn vint_round_trip() {
    for v in [0u32, 1, 127, 128, 255, 300, 16383, 16384, 0x0fff_ffff, 0x1000_0000, u32::MAX] {
        let bytes = written(|out| out.write_vint(v));
        let mut input = RamInputStream::new(bytes);
        assert_eq!(input.read_vint(), Ok(v));
        assert_eq!(input.available(), 0);
    }
}

#[test]
fn vlong_round_trip() {
    for v in [0u64, 127, 128, 1 << 35, (1 << 56) - 1, 1 << 56, 1 << 63, u64::MAX] {
        let bytes = written(|out| out.write_vlong(v));
        let mut input = RamInputStream::new(bytes);
        assert_eq!(input.read_vlong(), Ok(v));
        assert_eq!(input.available(), 0);
    }
}

#[test]
fn vint_encoding_is_seven_bits_to_a_byte() {
    assert_eq!(written(|out| out.write_vint(0)), vec![0]);
    assert_eq!(written(|out| out.write_vint(127)), vec![0x7f]);
    assert_eq!(written(|out| out.write_vint(128)), vec![0x80, 0x01]);
    assert_eq!(written(|out| out.write_vint(300)), vec![0xac, 0x02]);
    assert_eq!(written(|out| out.write_vint(u32::MAX)), vec![0xff, 0xff, 0xff, 0xff, 0x0f]);
    assert_eq!(
        written(|out| out.write_vlong(u64::MAX)),
        vec![0xff, 0xff, 0xff, 0xff, 0xff, 0xff, 0xff, 0xff, 0xff, 0x01]
    );
}

#[test]
fn vint_takes_any_number_of_bytes_and_drops_high_bits() {
    // six bytes: the groups above bit 31 are dropped
    let mut input = RamInputStream::new(vec![0x81, 0x80, 0x80, 0x80, 0xf0, 0x7f, 9]);
    assert_eq!(input.read_vint(), Ok(1));
    assert_eq!(input.read_byte(), Ok(9));
    // the fifth byte gives only its low four bits
    let mut input = RamInputStream::new(vec![0x80, 0x80, 0x80, 0x80, 0x7f]);
    assert_eq!(input.read_vint(), Ok(0xf000_0000));
    // eleven bytes for a vlong
    let mut input =
        RamInputStream::new(vec![0x82, 0x80, 0x80, 0x80, 0x80, 0x80, 0x80, 0x80, 0x80, 0x82, 0x01]);
    assert_eq!(input.read_vlong(), Ok(2));
    assert_eq!(input.available(), 0);
    // no last byte
    let mut input = RamInputStream::new(vec![0x80, 0x80]);
    assert_eq!(input.read_vint(), Err(FormatError::UnexpectedEof));
    let mut input = RamInputStream::new(vec![]);
    assert_eq!(input.read_vlong(), Err(FormatError::UnexpectedEof));
}

#[test]
fn fixed_width_integers_are_big_endian() {
    assert_eq!(written(|out| out.write_u32(0x0102_0304)), vec![1, 2, 3, 4]);
    assert_eq!(written(|out| out.write_int(0xffff_fffe)), vec![0xff, 0xff, 0xff, 0xfe]);
    assert_eq!(
        written(|out| out.write_u64(0x0102_0304_0506_0708)),
        vec![1, 2, 3, 4, 5, 6, 7, 8]
    );
    assert_eq!(written(|out| out.write_long(1)), vec![0, 0, 0, 0, 0, 0, 0, 1]);
    assert_eq!(written(|out| out.write_bool(true)), vec![1]);
    assert_eq!(written(|out| out.write_bool(false)), vec![0]);

    let mut input = RamInputStream::new(vec![1, 2, 3, 4, 1, 2, 3, 4, 5, 6, 7, 8, 0, 2, 0xff]);
    assert_eq!(input.read_u32(), Ok(0x0102_0304));
    assert_eq!(input.read_u64(), Ok(0x0102_0304_0506_0708));
    assert_eq!(input.read_bool(), Ok(false));
    assert_eq!(input.read_bool(), Ok(true));
    assert_eq!(input.read_int(), Err(FormatError::UnexpectedEof));
    let mut input = RamInputStream::new(vec![0, 0, 0, 0, 0, 0, 0]);
    assert_eq!(input.read_long(), Err(FormatError::UnexpectedEof));
}

#[test]
fn read_bytes_and_read_exact() {
    let mut input = RamInputStream::new(vec![1, 2, 3]);
    assert_eq!(input.read_bytes(2), Ok(vec![1, 2]));
    assert_eq!(input.read_bytes(2), Err(FormatError::UnexpectedEof));
    let mut buf = vec![0u8; 1];
    assert_eq!(input.read_exact(&mut buf), Ok(()));
    assert_eq!(buf, vec![3]);
    assert_eq!(input.read_bytes(0), Ok(vec![]));
    assert_eq!(input.read_byte(), Err(FormatError::UnexpectedEof));
}

#[test]
fn string_round_trip() {
    for text in ["", "a", "hello world", "gr\u{fc}\u{df}e \u{4e16}\u{754c} \u{1f600}"] {
        let bytes = written(|out| out.write_string(text));
        assert_eq!(bytes[0] as usize, text.len());
        let mut input = RamInputStream::new(bytes);
        assert_eq!(input.read_string(), Ok(text.to_string()));
        assert_eq!(input.available(), 0);
    }
}

#[test]
fn read_string_rejects_bad_bytes() {
    let mut input = RamInputStream::new(vec![2, 0xc3, 0x28]);
    assert_eq!(input.read_string(), Err(FormatError::InvalidUtf8));
    let mut input = RamInputStream::new(vec![3, b'a', b'b']);
    assert_eq!(input.read_string(), Err(FormatError::UnexpectedEof));
    let mut input = RamInputStream::new(vec![]);
    assert_eq!(input.read_string(), Err(FormatError::UnexpectedEof));
}

#[test]
fn collections_are_count_prefixed() {
    let bytes =
        vec![2, 1, b'a', 1, b'x', 1, b'b', 0, 3, 1, b'p', 1, b'q', 1, b'p', 2, 1, b'u', 1, b'v'];
    let mut input = RamInputStream::new(bytes);
    let map = input.read_map().unwrap();
    assert_eq!(map.get("a").unwrap(), "x");
    assert_eq!(map.get("b").unwrap(), "");
    assert!(map.get("c").is_none());
    assert!(map.contains_key("a"));
    let set = input.read_set().unwrap();
    assert!(set.contains("p"));
    assert!(set.contains("q"));
    assert!(!set.contains("a"));
    assert_eq!(input.read_vec(), Ok(vec!["u".to_string(), "v".to_string()]));
    assert_eq!(input.available(), 0);
}

#[test]
fn a_later_pair_replaces_an_earlier_one() {
    let mut input = RamInputStream::new(vec![2, 1, b'k', 1, b'1', 1, b'k', 1, b'2']);
    let map = input.read_map().unwrap();
    assert_eq!(map.get("k").unwrap(), "2");
    let mut map = StringMap::new();
    map.insert("k".to_string(), "1".to_string());
    map.insert("k".to_string(), "3".to_string());
    assert_eq!(map.get("k").unwrap(), "3");
    let mut set = StringSet::new();
    set.insert("s".to_string());
    assert!(set.contains("s"));
    assert!(!set.contains("t"));
}

#[test]
fn collections_fail_when_the_stream_ends() {
    let mut input = RamInputStream::new(vec![2, 1, b'a', 1, b'x', 1, b'b']);
    assert!(matches!(input.read_map(), Err(FormatError::UnexpectedEof)));
    let mut input = RamInputStream::new(vec![2, 1, b'a']);
    assert!(matches!(input.read_set(), Err(FormatError::UnexpectedEof)));
    let mut input = RamInputStream::new(vec![1, 1, 0xff]);
    assert_eq!(input.read_vec(), Err(FormatError::InvalidUtf8));
}

#[test]
fn output_stream_seeks_and_overwrites() {
    let mut out = RamOutputStream::new();
    out.write_bytes(&[1, 2, 3]);
    assert_eq!(out.stream_position(), 3);
    out.seek(1);
    out.write_byte(9);
    assert_eq!(out.stream_position(), 2);
    out.seek(5);
    out.write_byte(7);
    out.flush();
    assert_eq!(out.into_bytes(), vec![1, 9, 3, 0, 0, 7]);
}

fn header_bytes(magic: u32) -> Vec<u8> {
    let mut bytes = magic.to_be_bytes().to_vec();
    bytes.extend_from_slice(&[5, b'c', b'o', b'd', b'e', b'c']);
    bytes.extend_from_slice(&[0, 0, 0, 7]);
    bytes.extend_from_slice(&[0xab; 16]);
    bytes.extend_from_slice(&[2, b'4', b'z']);
    bytes.push(0x55);
    bytes
}

#[test]
fn check_header_reads_the_fields() {
    let mut input = RamInputStream::new(header_bytes(0x3fd76c17));
    let header = check_header(&mut input).unwrap();
    assert_eq!(header.codec, "codec");
    assert_eq!(header.version, 7);
    assert_eq!(header.id.0, vec![0xab; 16]);
    assert_eq!(header.suffix, "4z");
    assert_eq!(input.read_byte(), Ok(0x55));
}

#[test]
fn check_header_stops_at_a_wrong_magic() {
    let mut input = RamInputStream::new(header_bytes(0x3fd76c18));
    assert!(matches!(check_header(&mut input), Err(FormatError::BadMagic)));
    // only the four bytes of the magic were read
    assert_eq!(input.available(), header_bytes(0).len() - 4);
    assert_eq!(input.read_byte(), Ok(5));

    let mut input = RamInputStream::new(vec![0x3f, 0xd7]);
    assert!(matches!(check_header(&mut input), Err(FormatError::UnexpectedEof)));
    let mut short = header_bytes(0x3fd76c17);
    short.truncate(20);
    let mut input = RamInputStream::new(short);
    assert!(matches!(check_header(&mut input), Err(FormatError::UnexpectedEof)));
}

#[test]
fn footer_suffix_and_id() {
    let mut input = RamInputStream::new(vec![0xc0, 0x28, 0x93, 0xe8, 0, 0, 0, 0, 1]);
    assert_eq!(check_footer(&mut input), Ok((0xc02893e8, 0)));
    assert_eq!(check_footer(&mut input), Err(FormatError::UnexpectedEof));
    let mut input = RamInputStream::new(vec![3, b'a', b'b', b'c', 1, 0xff]);
    assert_eq!(read_suffix(&mut input), Ok("abc".to_string()));
    assert_eq!(read_suffix(&mut input), Err(FormatError::InvalidUtf8));
    let mut input = RamInputStream::new((0u8..20).collect());
    let id = read_id(&mut input).unwrap();
    assert_eq!(id.0, (0u8..16).collect::<Vec<u8>>());
    assert!(id.is_valid());
    assert!(read_id(&mut input).is_err());
}

#[test]
fn id_is_shown_in_base_36() {
    assert_eq!(Id(vec![]).to_string(), "(null)");
    let mut one = vec![0u8; 16];
    one[15] = 35;
    assert_eq!(Id(one).to_string(), "z");
    let mut big = vec![0u8; 16];
    big[14] = 1;
    assert_eq!(Id(big).to_string(), "74");
    assert_eq!(Id(vec![0u8; 16]).to_string(), "0");
    assert_eq!(Id(vec![0xff; 16]).to_string(), "f5lxx1zz5pnorynqglhzmsp33");
    assert_eq!(Id(vec![1, 0]).to_string(), "74 (INVALID FORMAT)");
    assert!(!Id(vec![1, 0]).is_valid());
}
