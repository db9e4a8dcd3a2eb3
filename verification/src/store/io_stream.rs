use vstd::arithmetic::div_mod::{
    lemma_fundamental_div_mod, lemma_mod_mod, lemma_mod_multiples_vanish, lemma_small_mod,
};
use vstd::prelude::*;
use vstd::utf8::{
    decode_utf8, encode_utf8, encode_utf8_decode_utf8, encode_utf8_valid_utf8, valid_utf8,
};

use super::util::{
    lemma_text_of_bytes, pair_views, pairs_map, string_from_utf8, text_views, StringMap, StringSet,
};

verus! {

/// Why the bytes of a file could not be decoded.
#[derive(Debug, Clone, Copy, PartialEq, Eq, Structural)]
pub enum FormatError {
    /// The first four bytes of a header are not the codec magic.
    BadMagic,
    /// The stream ended before a value was complete.
    UnexpectedEof,
    /// The bytes of a string are not valid UTF-8.
    InvalidUtf8,
}

/// What decoding a value from the front of a byte sequence gives: the value
/// and the bytes that follow it, or the reason it cannot be decoded.
pub type Decoded<T> = Result<(T, Seq<u8>), FormatError>;

/// `r` is what a reader returns and `after` what it leaves unread, given that
/// decoding the unread bytes before the call gives `expected`. Nothing is
/// said of what is left unread when decoding fails.
pub open spec fn reads<T>(r: Result<T, FormatError>, after: Seq<u8>, expected: Decoded<T>) -> bool {
    match expected {
        Ok((value, rest)) => r == Ok::<T, FormatError>(value) && after == rest,
        Err(e) => r == Err::<T, FormatError>(e),
    }
}

/// As `reads`, for a value that is compared through its view.
pub open spec fn reads_view<T: View>(
    r: Result<T, FormatError>,
    after: Seq<u8>,
    expected: Decoded<T::V>,
) -> bool {
    match expected {
        Ok((value, rest)) => r is Ok && r->Ok_0@ == value && after == rest,
        Err(e) => r == Err::<T, FormatError>(e),
    }
}

/// The first `n` bytes of `s`, if it has that many.
pub open spec fn decode_bytes(s: Seq<u8>, n: nat) -> Decoded<Seq<u8>> {
    if s.len() >= n {
        Ok((s.take(n as int), s.skip(n as int)))
    } else {
        Err(FormatError::UnexpectedEof)
    }
}

pub open spec fn decode_byte(s: Seq<u8>) -> Decoded<u8> {
    if s.len() >= 1 {
        Ok((s[0], s.skip(1)))
    } else {
        Err(FormatError::UnexpectedEof)
    }
}

pub open spec fn decode_bool(s: Seq<u8>) -> Decoded<bool> {
    match decode_byte(s) {
        Ok((b, rest)) => Ok((b != 0, rest)),
        Err(e) => Err(e),
    }
}

/// The number that four bytes stand for, most significant byte first.
pub open spec fn u32_from_be(b0: u8, b1: u8, b2: u8, b3: u8) -> u32 {
    (b0 as u32 * 0x100_0000 + b1 as u32 * 0x1_0000 + b2 as u32 * 0x100 + b3 as u32) as u32
}

/// The four bytes of a number, most significant byte first.
pub open spec fn encode_u32(v: u32) -> Seq<u8> {
    seq![
        (v / 0x100_0000) as u8,
        ((v / 0x1_0000) % 0x100) as u8,
        ((v / 0x100) % 0x100) as u8,
        (v % 0x100) as u8,
    ]
}

pub open spec fn decode_u32(s: Seq<u8>) -> Decoded<u32> {
    if s.len() >= 4 {
        Ok((u32_from_be(s[0], s[1], s[2], s[3]), s.skip(4)))
    } else {
        Err(FormatError::UnexpectedEof)
    }
}

/// The number that two 32-bit halves stand for, high half first.
pub open spec fn u64_from_halves(high: u32, low: u32) -> u64 {
    (high as u64 * 0x1_0000_0000 + low as u64) as u64
}

/// The eight bytes of a number, most significant byte first.
pub open spec fn encode_u64(v: u64) -> Seq<u8> {
    encode_u32((v / 0x1_0000_0000) as u32) + encode_u32((v % 0x1_0000_0000) as u32)
}

pub open spec fn decode_u64(s: Seq<u8>) -> Decoded<u64> {
    if s.len() >= 8 {
        Ok(
            (
                u64_from_halves(
                    u32_from_be(s[0], s[1], s[2], s[3]),
                    u32_from_be(s[4], s[5], s[6], s[7]),
                ),
                s.skip(8),
            ),
        )
    } else {
        Err(FormatError::UnexpectedEof)
    }
}


/// How many bytes the variable-length integer at the front of `s` takes: up
/// to and including the first byte whose high bit is clear. `None` when every
/// byte of `s` has its high bit set.
pub open spec fn varint_len(s: Seq<u8>) -> Option<nat>
    decreases s.len(),
{
    if s.len() == 0 {
        None
    } else if s[0] < 0x80 {
        Some(1)
    } else {
        match varint_len(s.skip(1)) {
            Some(n) => Some(n + 1),
            None => None,
        }
    }
}

/// The number that the variable-length integer at the front of `s` stands
/// for: each byte gives seven bits, the first byte the least significant.
pub open spec fn varint_value(s: Seq<u8>) -> nat
    decreases s.len(),
{
    if s.len() == 0 {
        0
    } else if s[0] < 0x80 {
        s[0] as nat
    } else {
        (s[0] - 0x80) as nat + 0x80 * varint_value(s.skip(1))
    }
}

/// The variable-length encoding of `v`: seven bits to a byte, least
/// significant first, the high bit set on every byte but the last.
pub open spec fn encode_varint(v: nat) -> Seq<u8>
    decreases v,
{
    if v < 0x80 {
        seq![v as u8]
    } else {
        seq![(v % 0x80 + 0x80) as u8] + encode_varint(v / 0x80)
    }
}

/// A variable-length integer read as a 64-bit number. Any number of bytes is
/// taken; bits beyond the sixty-fourth are dropped.
pub open spec fn decode_vlong(s: Seq<u8>) -> Decoded<u64> {
    match varint_len(s) {
        Some(n) => Ok(((varint_value(s) % 0x1_0000_0000_0000_0000) as u64, s.skip(n as int))),
        None => Err(FormatError::UnexpectedEof),
    }
}

/// A variable-length integer read as a 32-bit number. Any number of bytes is
/// taken; bits beyond the thirty-second are dropped.
pub open spec fn decode_vint(s: Seq<u8>) -> Decoded<u32> {
    match varint_len(s) {
        Some(n) => Ok(((varint_value(s) % 0x1_0000_0000) as u32, s.skip(n as int))),
        None => Err(FormatError::UnexpectedEof),
    }
}


/// The text that the first `n` bytes of `s` encode as UTF-8.
pub open spec fn decode_text(s: Seq<u8>, n: nat) -> Decoded<Seq<char>> {
    if s.len() < n {
        Err(FormatError::UnexpectedEof)
    } else if !valid_utf8(s.take(n as int)) {
        Err(FormatError::InvalidUtf8)
    } else {
        Ok((decode_utf8(s.take(n as int)), s.skip(n as int)))
    }
}

/// A text: its length in bytes as a variable-length integer, then its UTF-8
/// bytes.
pub open spec fn decode_string(s: Seq<u8>) -> Decoded<Seq<char>> {
    match decode_vint(s) {
        Ok((n, rest)) => decode_text(rest, n as nat),
        Err(e) => Err(e),
    }
}

/// A key and its value, each a text.
pub open spec fn decode_pair(s: Seq<u8>) -> Decoded<(Seq<char>, Seq<char>)> {
    match decode_string(s) {
        Ok((key, rest)) => match decode_string(rest) {
            Ok((value, rest)) => Ok(((key, value), rest)),
            Err(e) => Err(e),
        },
        Err(e) => Err(e),
    }
}

pub open spec fn string_decoder() -> spec_fn(Seq<u8>) -> Decoded<Seq<char>> {
    |s: Seq<u8>| decode_string(s)
}

pub open spec fn pair_decoder() -> spec_fn(Seq<u8>) -> Decoded<(Seq<char>, Seq<char>)> {
    |s: Seq<u8>| decode_pair(s)
}

/// The items `first` followed by those that `next` decodes, if it does.
pub open spec fn then_items<T>(first: Seq<T>, next: Decoded<Seq<T>>) -> Decoded<Seq<T>> {
    match next {
        Ok((items, rest)) => Ok((first + items, rest)),
        Err(e) => Err(e),
    }
}

/// `n` items one after the other, each decoded by `item`. The first item that
/// cannot be decoded gives the error.
pub open spec fn decode_repeat<T>(s: Seq<u8>, n: nat, item: spec_fn(Seq<u8>) -> Decoded<T>)
    -> Decoded<Seq<T>>
    decreases n,
{
    if n == 0 {
        Ok((Seq::empty(), s))
    } else {
        match item(s) {
            Ok((first, rest)) => then_items(seq![first], decode_repeat(rest, (n - 1) as nat, item)),
            Err(e) => Err(e),
        }
    }
}

/// One more item read is one item fewer to read.
pub proof fn lemma_then_items_step<T>(done: Seq<T>, first: T, next: Decoded<Seq<T>>)
    ensures
        then_items(done, then_items(seq![first], next)) == then_items(done.push(first), next),
        then_items(done, Ok((Seq::empty(), Seq::<u8>::empty()))) == Ok::<
            (Seq<T>, Seq<u8>),
            FormatError,
        >((done, Seq::<u8>::empty())),
{
    match next {
        Ok((items, rest)) => {
            assert(done + (seq![first] + items) =~= done.push(first) + items);
        },
        Err(e) => {},
    }
    assert(done + Seq::<T>::empty() =~= done);
}

/// After `n` items that can be decoded, the next item decides what `n + 1`
/// items give.
pub proof fn lemma_decode_repeat_more<T>(s: Seq<u8>, n: nat, item: spec_fn(Seq<u8>) -> Decoded<T>)
    requires
        decode_repeat(s, n, item) is Ok,
    ensures
        decode_repeat(s, n + 1, item) == match item(decode_repeat(s, n, item)->Ok_0.1) {
            Ok((last, after)) => Ok::<(Seq<T>, Seq<u8>), FormatError>(
                (decode_repeat(s, n, item)->Ok_0.0.push(last), after),
            ),
            Err(e) => Err(e),
        },
    decreases n,
{
    if n == 0 {
        match item(s) {
            Ok((first, rest)) => {
                assert(decode_repeat(rest, 0, item) == Ok::<(Seq<T>, Seq<u8>), FormatError>(
                    (Seq::empty(), rest),
                ));
                assert(seq![first] + Seq::<T>::empty() =~= Seq::<T>::empty().push(first));
            },
            Err(e) => {},
        }
    } else {
        match item(s) {
            Ok((first, rest)) => {
                let inner = decode_repeat(rest, (n - 1) as nat, item);
                assert(decode_repeat(s, n, item) == then_items(seq![first], inner));
                lemma_decode_repeat_more(rest, (n - 1) as nat, item);
                let (items, at) = inner->Ok_0;
                match item(at) {
                    Ok((last, after)) => {
                        assert(seq![first] + items.push(last) =~= (seq![first] + items).push(
                            last,
                        ));
                    },
                    Err(e) => {},
                }
            },
            Err(e) => {},
        }
    }
}

/// Where fewer items cannot be decoded, more cannot either.
pub proof fn lemma_decode_repeat_fails<T>(
    s: Seq<u8>,
    k: nat,
    n: nat,
    item: spec_fn(Seq<u8>) -> Decoded<T>,
)
    requires
        k <= n,
        decode_repeat(s, k, item) is Err,
    ensures
        decode_repeat(s, n, item) is Err,
    decreases n - k,
{
    if k < n {
        if decode_repeat(s, (n - 1) as nat, item) is Ok {
            lemma_decode_repeat_fails_below(s, k, (n - 1) as nat, item);
        } else {
            lemma_decode_repeat_fails(s, k, (n - 1) as nat, item);
            lemma_decode_repeat_step_err(s, (n - 1) as nat, item);
        }
    }
}

/// Where more items can be decoded, fewer can as well.
pub proof fn lemma_decode_repeat_fails_below<T>(
    s: Seq<u8>,
    k: nat,
    n: nat,
    item: spec_fn(Seq<u8>) -> Decoded<T>,
)
    requires
        k <= n,
        decode_repeat(s, n, item) is Ok,
    ensures
        decode_repeat(s, k, item) is Ok,
    decreases n - k,
{
    if k < n {
        if decode_repeat(s, (n - 1) as nat, item) is Err {
            lemma_decode_repeat_step_err(s, (n - 1) as nat, item);
        }
        lemma_decode_repeat_fails_below(s, k, (n - 1) as nat, item);
    }
}

/// Where `n` items cannot be decoded, `n + 1` cannot either.
pub proof fn lemma_decode_repeat_step_err<T>(
    s: Seq<u8>,
    n: nat,
    item: spec_fn(Seq<u8>) -> Decoded<T>,
)
    requires
        decode_repeat(s, n, item) is Err,
    ensures
        decode_repeat(s, n + 1, item) is Err,
    decreases n,
{
    if n > 0 {
        match item(s) {
            Ok((first, rest)) => {
                lemma_decode_repeat_step_err(rest, (n - 1) as nat, item);
            },
            Err(e) => {},
        }
    }
}

/// A list of texts: their number as a variable-length integer, then each.
pub open spec fn decode_vec(s: Seq<u8>) -> Decoded<Seq<Seq<char>>> {
    match decode_vint(s) {
        Ok((n, rest)) => decode_repeat(rest, n as nat, string_decoder()),
        Err(e) => Err(e),
    }
}

/// A set of texts, written as a list of texts.
pub open spec fn decode_set(s: Seq<u8>) -> Decoded<Set<Seq<char>>> {
    match decode_vec(s) {
        Ok((items, rest)) => Ok((items.to_set(), rest)),
        Err(e) => Err(e),
    }
}

/// A map from text to text: the number of its pairs as a variable-length
/// integer, then each key with its value. A later pair replaces an earlier
/// one with the same key.
pub open spec fn decode_map(s: Seq<u8>) -> Decoded<Map<Seq<char>, Seq<char>>> {
    match decode_vint(s) {
        Ok((n, rest)) => match decode_repeat(rest, n as nat, pair_decoder()) {
            Ok((pairs, rest)) => Ok((pairs_map(pairs), rest)),
            Err(e) => Err(e),
        },
        Err(e) => Err(e),
    }
}

/// The weights that the groups of a variable-length integer can have while
/// they still reach below bit 64, and the first weight that does not.
pub open spec fn is_group_weight(w: u128) -> bool {
    ||| w == 1
    ||| w == 0x80
    ||| w == 0x4000
    ||| w == 0x20_0000
    ||| w == 0x1000_0000
    ||| w == 0x8_0000_0000
    ||| w == 0x400_0000_0000
    ||| w == 0x2_0000_0000_0000
    ||| w == 0x100_0000_0000_0000
    ||| w == 0x8000_0000_0000_0000
    ||| w == 0x40_0000_0000_0000_0000
}

/// A sum keeps its remainder when multiples of the modulus are added to it.
proof fn lemma_multiples_vanish(a: nat, z: nat, m: nat, b: nat, modulus: nat)
    requires
        modulus > 0,
        z % modulus == 0,
        m % modulus == 0,
    ensures
        (a + z + m * b) % modulus == a % modulus,
        (z + m * b) % modulus == 0,
        (0x80 * m) % modulus == 0,
{
    let zq = z / modulus;
    let mq = m / modulus;
    lemma_fundamental_div_mod(z as int, modulus as int);
    lemma_fundamental_div_mod(m as int, modulus as int);
    assert(z == modulus * zq);
    assert(m == modulus * mq);
    assert(m * b == modulus * (mq * b)) by (nonlinear_arith)
        requires
            m == modulus * mq,
    ;
    assert(0x80 * m == modulus * (0x80 * mq)) by (nonlinear_arith)
        requires
            m == modulus * mq,
    ;
    assert(z + m * b == modulus * (zq + mq * b)) by (nonlinear_arith)
        requires
            z == modulus * zq,
            m * b == modulus * (mq * b),
    ;
    lemma_mod_multiples_vanish((zq + mq * b) as int, a as int, modulus as int);
    lemma_mod_multiples_vanish((zq + mq * b) as int, 0, modulus as int);
    lemma_mod_multiples_vanish((0x80 * mq) as int, 0, modulus as int);
    lemma_small_mod(0, modulus);
}

/// Source of the bytes of one file, read front to back.
pub trait InputStream {
    /// The bytes that have not been read yet.
    spec fn remaining(&self) -> Seq<u8>;

    /// Fills the whole of `buf` with the next bytes. Fails, and only then,
    /// when fewer bytes are left than `buf` holds.
    fn read_exact(&mut self, buf: &mut Vec<u8>) -> (r: Result<(), FormatError>)
        ensures
            final(buf)@.len() == old(buf)@.len(),
            match decode_bytes(old(self).remaining(), old(buf)@.len()) {
                Ok((bytes, rest)) => r is Ok && final(buf)@ == bytes && final(self).remaining()
                    == rest,
                Err(e) => r == Err::<(), FormatError>(e),
            },
    ;

    fn read_byte(&mut self) -> (r: Result<u8, FormatError>)
        ensures
            reads(r, final(self).remaining(), decode_byte(old(self).remaining())),
    {
        let mut buf: Vec<u8> = vec![0u8; 1];
        match self.read_exact(&mut buf) {
            Ok(()) => Ok(buf[0]),
            Err(e) => Err(e),
        }
    }

    fn read_bytes(&mut self, len: usize) -> (r: Result<Vec<u8>, FormatError>)
        ensures
            reads_view(r, final(self).remaining(), decode_bytes(old(self).remaining(), len as nat)),
    {
        let mut buf: Vec<u8> = vec![0u8; len];
        match self.read_exact(&mut buf) {
            Ok(()) => Ok(buf),
            Err(e) => Err(e),
        }
    }

    fn read_bool(&mut self) -> (r: Result<bool, FormatError>)
        ensures
            reads(r, final(self).remaining(), decode_bool(old(self).remaining())),
    {
        match self.read_byte() {
            Ok(b) => Ok(b != 0),
            Err(e) => Err(e),
        }
    }

    fn read_u32(&mut self) -> (r: Result<u32, FormatError>)
        ensures
            reads(r, final(self).remaining(), decode_u32(old(self).remaining())),
    {
        let mut buf: Vec<u8> = vec![0u8; 4];
        match self.read_exact(&mut buf) {
            Ok(()) => {
                let b0: u32 = buf[0] as u32;
                let b1: u32 = buf[1] as u32;
                let b2: u32 = buf[2] as u32;
                let b3: u32 = buf[3] as u32;
                Ok(b0 * 0x100_0000 + b1 * 0x1_0000 + b2 * 0x100 + b3)
            },
            Err(e) => Err(e),
        }
    }

    fn read_int(&mut self) -> (r: Result<u32, FormatError>)
        ensures
            reads(r, final(self).remaining(), decode_u32(old(self).remaining())),
    {
        self.read_u32()
    }

    fn read_u64(&mut self) -> (r: Result<u64, FormatError>)
        ensures
            reads(r, final(self).remaining(), decode_u64(old(self).remaining())),
    {
        let high = match self.read_u32() {
            Ok(v) => v,
            Err(e) => { return Err(e); },
        };
        let low = match self.read_u32() {
            Ok(v) => v,
            Err(e) => { return Err(e); },
        };
        proof {
            let s = old(self).remaining();
            assert(s.skip(4).skip(4) =~= s.skip(8));
        }
        Ok(high as u64 * 0x1_0000_0000 + low as u64)
    }

    fn read_long(&mut self) -> (r: Result<u64, FormatError>)
        ensures
            reads(r, final(self).remaining(), decode_u64(old(self).remaining())),
    {
        self.read_u64()
    }

    fn read_vint(&mut self) -> (r: Result<u32, FormatError>)
        ensures
            reads(r, final(self).remaining(), decode_vint(old(self).remaining())),
    {
        match self.read_vlong() {
            Ok(v) => {
                proof {
                    lemma_mod_mod(
                        varint_value(old(self).remaining()) as int,
                        0x1_0000_0000,
                        0x1_0000_0000,
                    );
                }
                Ok((v % 0x1_0000_0000) as u32)
            },
            Err(e) => Err(e),
        }
    }

    fn read_vlong(&mut self) -> (r: Result<u64, FormatError>)
        ensures
            reads(r, final(self).remaining(), decode_vlong(old(self).remaining())),
    {
        let ghost s0 = self.remaining();
        let ghost mut k: nat = 0;
        // what the groups above bit 63 add, and the weight of the next group
        let ghost mut z: nat = 0;
        let ghost mut m: nat = 1;
        let mut value: u128 = 0;
        let mut weight: u128 = 1;
        loop
            invariant
                s0 == old(self).remaining(),
                self.remaining() == s0.skip(k as int),
                k <= s0.len(),
                is_group_weight(weight),
                varint_len(s0) == match varint_len(self.remaining()) {
                    Some(n) => Some(n + k),
                    None => None,
                },
                varint_value(s0) == value + z + m * varint_value(self.remaining()),
                weight <= 0x40_0000_0000_0000_0000,
                value < weight,
                weight < 0x1_0000_0000_0000_0000 ==> z == 0 && m == weight,
                weight >= 0x1_0000_0000_0000_0000 ==> z % 0x1_0000_0000_0000_0000 == 0 && m
                    % 0x1_0000_0000_0000_0000 == 0,
            decreases self.remaining().len(),
        {
            let ghost cur = self.remaining();
            let b = match self.read_byte() {
                Ok(b) => b,
                Err(e) => { return Err(e); },
            };
            let group: u128 = (b % 0x80) as u128;
            proof {
                assert(cur.skip(1) =~= s0.skip(k + 1 as int));
                assert(m * (group + 0x80 * varint_value(cur.skip(1))) == m * group + (0x80 * m)
                    * varint_value(cur.skip(1))) by (nonlinear_arith);
                assert(weight * group <= weight * 0x7f) by (nonlinear_arith)
                    requires
                        group <= 0x7f,
                ;
                if weight >= 0x1_0000_0000_0000_0000 {
                    lemma_multiples_vanish(
                        value as nat,
                        z,
                        m,
                        group as nat,
                        0x1_0000_0000_0000_0000,
                    );
                }
            }
            if weight < 0x1_0000_0000_0000_0000 {
                value = value + weight * group;
                weight = weight * 0x80;
            } else {
                proof {
                    z = z + m * (group as nat);
                }
            }
            if b < 0x80 {
                return Ok((value % 0x1_0000_0000_0000_0000) as u64);
            }
            proof {
                k = k + 1;
                m = 0x80 * m;
            }
        }
    }

    /// The next `len` bytes as UTF-8 text.
    fn read_text(&mut self, len: usize) -> (r: Result<String, FormatError>)
        ensures
            reads_view(r, final(self).remaining(), decode_text(old(self).remaining(), len as nat)),
    {
        let bytes = match self.read_bytes(len) {
            Ok(bytes) => bytes,
            Err(e) => { return Err(e); },
        };
        let ghost given = bytes@;
        match string_from_utf8(bytes) {
            Some(text) => {
                proof {
                    lemma_text_of_bytes(text@, given);
                }
                Ok(text)
            },
            None => Err(FormatError::InvalidUtf8),
        }
    }

    fn read_string(&mut self) -> (r: Result<String, FormatError>)
        ensures
            reads_view(r, final(self).remaining(), decode_string(old(self).remaining())),
    {
        let len = match self.read_vint() {
            Ok(len) => len,
            Err(e) => { return Err(e); },
        };
        self.read_text(len as usize)
    }

    fn read_map(&mut self) -> (r: Result<StringMap, FormatError>)
        ensures
            reads_view(r, final(self).remaining(), decode_map(old(self).remaining())),
    {
        let count = match self.read_vint() {
            Ok(count) => count,
            Err(e) => { return Err(e); },
        };
        let ghost start = self.remaining();
        let mut map = StringMap::new();
        let mut i: u32 = 0;
        while i < count
            invariant
                i <= count,
                then_items(
                    pair_views(map.entries@),
                    decode_repeat(self.remaining(), (count - i) as nat, pair_decoder()),
                ) == decode_repeat(start, count as nat, pair_decoder()),
                decode_map(old(self).remaining()) == match decode_repeat(
                    start,
                    count as nat,
                    pair_decoder(),
                ) {
                    Ok((pairs, rest)) => Ok((pairs_map(pairs), rest)),
                    Err(e) => Err(e),
                },
            decreases count - i,
        {
            let key = match self.read_string() {
                Ok(key) => key,
                Err(e) => { return Err(e); },
            };
            let value = match self.read_string() {
                Ok(value) => value,
                Err(e) => { return Err(e); },
            };
            proof {
                lemma_then_items_step(
                    pair_views(map.entries@),
                    (key@, value@),
                    decode_repeat(self.remaining(), (count - i - 1) as nat, pair_decoder()),
                );
                assert(pair_views(map.entries@.push((key, value))) =~= pair_views(
                    map.entries@,
                ).push((key@, value@)));
            }
            map.insert(key, value);
            i = i + 1;
        }
        proof {
            assert(pair_views(map.entries@) + Seq::empty() =~= pair_views(map.entries@));
        }
        Ok(map)
    }

    fn read_set(&mut self) -> (r: Result<StringSet, FormatError>)
        ensures
            reads_view(r, final(self).remaining(), decode_set(old(self).remaining())),
    {
        match self.read_vec() {
            Ok(items) => Ok(StringSet { items }),
            Err(e) => Err(e),
        }
    }

    fn read_vec(&mut self) -> (r: Result<Vec<String>, FormatError>)
        ensures
            match decode_vec(old(self).remaining()) {
                Ok((texts, rest)) => r is Ok && text_views(r->Ok_0@) == texts
                    && final(self).remaining() == rest,
                Err(e) => r == Err::<Vec<String>, FormatError>(e),
            },
    {
        let count = match self.read_vint() {
            Ok(count) => count,
            Err(e) => { return Err(e); },
        };
        let ghost start = self.remaining();
        let mut vec: Vec<String> = Vec::new();
        let mut i: u32 = 0;
        while i < count
            invariant
                i <= count,
                then_items(
                    text_views(vec@),
                    decode_repeat(self.remaining(), (count - i) as nat, string_decoder()),
                ) == decode_repeat(start, count as nat, string_decoder()),
                decode_vec(old(self).remaining()) == decode_repeat(
                    start,
                    count as nat,
                    string_decoder(),
                ),
            decreases count - i,
        {
            let item = match self.read_string() {
                Ok(item) => item,
                Err(e) => { return Err(e); },
            };
            proof {
                lemma_then_items_step(
                    text_views(vec@),
                    item@,
                    decode_repeat(self.remaining(), (count - i - 1) as nat, string_decoder()),
                );
                assert(text_views(vec@.push(item)) =~= text_views(vec@).push(item@));
            }
            vec.push(item);
            i = i + 1;
        }
        proof {
            assert(text_views(vec@) + Seq::empty() =~= text_views(vec@));
        }
        Ok(vec)
    }
}

/// What `bytes` become when `value` is written at place `position`: the
/// byte at that place is replaced, and a place beyond the end is reached by
/// filling up with zeros.
pub open spec fn write_at(bytes: Seq<u8>, position: nat, value: u8) -> Seq<u8> {
    if position < bytes.len() {
        bytes.update(position as int, value)
    } else {
        (bytes + Seq::new((position - bytes.len()) as nat, |i: int| 0u8)).push(value)
    }
}

/// What `bytes` become when `values` are written one after the other from
/// place `position` on.
pub open spec fn write_all_at(bytes: Seq<u8>, position: nat, values: Seq<u8>) -> Seq<u8>
    decreases values.len(),
{
    if values.len() == 0 {
        bytes
    } else {
        write_at(
            write_all_at(bytes, position, values.drop_last()),
            (position + values.len() - 1) as nat,
            values.last(),
        )
    }
}

/// Writing one byte.
pub proof fn lemma_write_one(bytes: Seq<u8>, position: nat, values: Seq<u8>)
    requires
        values.len() == 1,
    ensures
        write_all_at(bytes, position, values) == write_at(bytes, position, values[0]),
{
    reveal_with_fuel(write_all_at, 2);
}

/// Writing `first` and then `second` is writing the two as one.
pub proof fn lemma_write_all_concat(bytes: Seq<u8>, position: nat, first: Seq<u8>, second: Seq<u8>)
    ensures
        write_all_at(write_all_at(bytes, position, first), position + first.len(), second)
            == write_all_at(bytes, position, first + second),
    decreases second.len(),
{
    if second.len() == 0 {
        assert(first + second =~= first);
    } else {
        lemma_write_all_concat(bytes, position, first, second.drop_last());
        assert((first + second).drop_last() =~= first + second.drop_last());
    }
}

/// Writing at the end appends.
pub proof fn lemma_write_all_append(bytes: Seq<u8>, values: Seq<u8>)
    ensures
        write_all_at(bytes, bytes.len(), values) == bytes + values,
    decreases values.len(),
{
    if values.len() == 0 {
        assert(bytes + values =~= bytes);
    } else {
        lemma_write_all_append(bytes, values.drop_last());
        assert((bytes + values.drop_last()).push(values.last()) =~= bytes + values);
        assert((bytes + values.drop_last()) + Seq::new(0, |i: int| 0u8) =~= bytes
            + values.drop_last());
    }
}

/// Between `before` and `after`, each the bytes of a file and the place in
/// it, exactly `data` was written at the place where `before` stood.
pub open spec fn wrote(before: (Seq<u8>, nat), after: (Seq<u8>, nat), data: Seq<u8>) -> bool {
    &&& after.0 == write_all_at(before.0, before.1, data)
    &&& after.1 == before.1 + data.len()
}

/// Two writes, one after the other, are one write of the two pieces.
pub proof fn lemma_wrote_then(
    before: (Seq<u8>, nat),
    between: (Seq<u8>, nat),
    after: (Seq<u8>, nat),
    first: Seq<u8>,
    second: Seq<u8>,
)
    requires
        wrote(before, between, first),
        wrote(between, after, second),
    ensures
        wrote(before, after, first + second),
{
    lemma_write_all_concat(before.0, before.1, first, second);
}

/// The byte that stands for a truth value.
pub open spec fn encode_bool(value: bool) -> Seq<u8> {
    seq![if value { 1u8 } else { 0u8 }]
}

/// A text as it is written: the length of its UTF-8 bytes as a
/// variable-length integer, then those bytes.
pub open spec fn encode_string(text: Seq<char>) -> Seq<u8> {
    encode_varint(encode_utf8(text).len()) + encode_utf8(text)
}

/// Sink for the bytes of one file.
pub trait OutputStream: Sized {
    /// The bytes of the file as written so far.
    spec fn bytes(&self) -> Seq<u8>;

    /// The place in the file where the next byte goes.
    spec fn position(&self) -> nat;

    fn write_byte(&mut self, value: u8)
        requires
            old(self).position() < u64::MAX,
        ensures
            final(self).bytes() == write_at(old(self).bytes(), old(self).position(), value),
            final(self).position() == old(self).position() + 1,
    ;

    fn seek(&mut self, position: u64)
        ensures
            final(self).bytes() == old(self).bytes(),
            final(self).position() == position,
    ;

    fn stream_position(&mut self) -> (position: u64)
        ensures
            position == old(self).position(),
            final(self).bytes() == old(self).bytes(),
            final(self).position() == old(self).position(),
    ;

    fn flush(&mut self)
        ensures
            final(self).bytes() == old(self).bytes(),
            final(self).position() == old(self).position(),
    ;

    fn write_bytes(&mut self, values: &[u8])
        requires
            old(self).position() + values@.len() <= u64::MAX,
        ensures
            wrote(
                (old(self).bytes(), old(self).position()),
                (final(self).bytes(), final(self).position()),
                values@,
            ),
    {
        let mut i: usize = 0;
        while i < values.len()
            invariant
                i <= values@.len(),
                old(self).position() + values@.len() <= u64::MAX,
                wrote(
                    (old(self).bytes(), old(self).position()),
                    (self.bytes(), self.position()),
                    values@.take(i as int),
                ),
            decreases values@.len() - i,
        {
            proof {
                assert(values@.take(i + 1).drop_last() =~= values@.take(i as int));
            }
            self.write_byte(values[i]);
            i = i + 1;
        }
        proof {
            assert(values@.take(i as int) =~= values@);
        }
    }

    fn write_bool(&mut self, value: bool)
        requires
            old(self).position() < u64::MAX,
        ensures
            wrote(
                (old(self).bytes(), old(self).position()),
                (final(self).bytes(), final(self).position()),
                encode_bool(value),
            ),
    {
        proof {
            lemma_write_one(old(self).bytes(), old(self).position(), encode_bool(value));
        }
        self.write_byte(if value { 1 } else { 0 });
    }

    fn write_u32(&mut self, value: u32)
        requires
            old(self).position() + 4 <= u64::MAX,
        ensures
            wrote(
                (old(self).bytes(), old(self).position()),
                (final(self).bytes(), final(self).position()),
                encode_u32(value),
            ),
    {
        let ghost data = encode_u32(value);
        proof {
            lemma_write_one(old(self).bytes(), old(self).position(), data.take(1));
            assert(data.take(1).drop_last() =~= data.take(0));
            assert(data.take(2).drop_last() =~= data.take(1));
            assert(data.take(3).drop_last() =~= data.take(2));
            assert(data.take(4).drop_last() =~= data.take(3));
            assert(data.take(4) =~= data);
        }
        self.write_byte((value / 0x100_0000) as u8);
        assert(wrote(
            (old(self).bytes(), old(self).position()),
            (self.bytes(), self.position()),
            data.take(1),
        ));
        self.write_byte(((value / 0x1_0000) % 0x100) as u8);
        assert(wrote(
            (old(self).bytes(), old(self).position()),
            (self.bytes(), self.position()),
            data.take(2),
        ));
        self.write_byte(((value / 0x100) % 0x100) as u8);
        assert(wrote(
            (old(self).bytes(), old(self).position()),
            (self.bytes(), self.position()),
            data.take(3),
        ));
        self.write_byte((value % 0x100) as u8);
    }

    fn write_int(&mut self, value: u32)
        requires
            old(self).position() + 4 <= u64::MAX,
        ensures
            wrote(
                (old(self).bytes(), old(self).position()),
                (final(self).bytes(), final(self).position()),
                encode_u32(value),
            ),
    {
        self.write_u32(value);
    }

    fn write_u64(&mut self, value: u64)
        requires
            old(self).position() + 8 <= u64::MAX,
        ensures
            wrote(
                (old(self).bytes(), old(self).position()),
                (final(self).bytes(), final(self).position()),
                encode_u64(value),
            ),
    {
        proof {
            lemma_write_all_concat(
                old(self).bytes(),
                old(self).position(),
                encode_u32((value / 0x1_0000_0000) as u32),
                encode_u32((value % 0x1_0000_0000) as u32),
            );
        }
        self.write_u32((value / 0x1_0000_0000) as u32);
        self.write_u32((value % 0x1_0000_0000) as u32);
    }

    fn write_long(&mut self, value: u64)
        requires
            old(self).position() + 8 <= u64::MAX,
        ensures
            wrote(
                (old(self).bytes(), old(self).position()),
                (final(self).bytes(), final(self).position()),
                encode_u64(value),
            ),
    {
        self.write_u64(value);
    }

    fn write_vint(&mut self, value: u32)
        requires
            old(self).position() + encode_varint(value as nat).len() <= u64::MAX,
        ensures
            wrote(
                (old(self).bytes(), old(self).position()),
                (final(self).bytes(), final(self).position()),
                encode_varint(value as nat),
            ),
    {
        self.write_vlong(value as u64);
    }

    fn write_vlong(&mut self, value: u64)
        requires
            old(self).position() + encode_varint(value as nat).len() <= u64::MAX,
        ensures
            wrote(
                (old(self).bytes(), old(self).position()),
                (final(self).bytes(), final(self).position()),
                encode_varint(value as nat),
            ),
    {
        let mut val: u64 = value;
        let ghost mut done: Seq<u8> = Seq::empty();
        while val >= 0x80
            invariant
                wrote(
                    (old(self).bytes(), old(self).position()),
                    (self.bytes(), self.position()),
                    done,
                ),
                done + encode_varint(val as nat) == encode_varint(value as nat),
                old(self).position() + encode_varint(value as nat).len() <= u64::MAX,
            decreases val,
        {
            let byte: u8 = (val % 0x80 + 0x80) as u8;
            proof {
                assert(done.push(byte).drop_last() =~= done);
                assert(done.push(byte) + encode_varint((val / 0x80) as nat) =~= done
                    + encode_varint(val as nat));
            }
            self.write_byte(byte);
            val = val / 0x80;
            proof {
                done = done.push(byte);
            }
        }
        proof {
            assert(done.push(val as u8).drop_last() =~= done);
            assert(done.push(val as u8) =~= done + encode_varint(val as nat));
        }
        self.write_byte(val as u8);
    }

    fn write_string(&mut self, value: &str)
        requires
            encode_utf8(value@).len() <= u32::MAX,
            old(self).position() + encode_string(value@).len() <= u64::MAX,
        ensures
            wrote(
                (old(self).bytes(), old(self).position()),
                (final(self).bytes(), final(self).position()),
                encode_string(value@),
            ),
    {
        let bytes = value.as_bytes();
        proof {
            lemma_write_all_concat(
                old(self).bytes(),
                old(self).position(),
                encode_varint(bytes@.len()),
                bytes@,
            );
        }
        self.write_vint(bytes.len() as u32);
        self.write_bytes(bytes);
    }
}

/// A variable-length integer that was written is read back as it was, and
/// what follows it is left unread.
pub proof fn lemma_varint_round_trip(v: nat, rest: Seq<u8>)
    ensures
        varint_len(encode_varint(v) + rest) == Some(encode_varint(v).len()),
        varint_value(encode_varint(v) + rest) == v,
        (encode_varint(v) + rest).skip(encode_varint(v).len() as int) == rest,
    decreases v,
{
    let s = encode_varint(v) + rest;
    assert(s.skip(encode_varint(v).len() as int) =~= rest);
    if v >= 0x80 {
        lemma_varint_round_trip(v / 0x80, rest);
        assert(s.skip(1) =~= encode_varint(v / 0x80) + rest);
        assert(s[0] == (v % 0x80 + 0x80) as u8);
    } else {
        assert(s[0] == v as u8);
    }
}

/// Reading what `write_vint` wrote gives the number that was written, and
/// leaves the stream where the write ended.
pub proof fn lemma_vint_round_trip(v: u32, rest: Seq<u8>)
    ensures
        decode_vint(encode_varint(v as nat) + rest) == Ok::<(u32, Seq<u8>), FormatError>((v, rest)),
{
    lemma_varint_round_trip(v as nat, rest);
}

/// Reading what `write_vlong` wrote gives the number that was written, and
/// leaves the stream where the write ended.
pub proof fn lemma_vlong_round_trip(v: u64, rest: Seq<u8>)
    ensures
        decode_vlong(encode_varint(v as nat) + rest) == Ok::<(u64, Seq<u8>), FormatError>(
            (v, rest),
        ),
{
    lemma_varint_round_trip(v as nat, rest);
}

/// Reading what `write_u32` wrote gives the number that was written.
pub proof fn lemma_u32_round_trip(v: u32, rest: Seq<u8>)
    ensures
        decode_u32(encode_u32(v) + rest) == Ok::<(u32, Seq<u8>), FormatError>((v, rest)),
{
    let s = encode_u32(v) + rest;
    assert(s.skip(4) =~= rest);
    assert(s[0] == (v / 0x100_0000) as u8);
    assert(s[1] == ((v / 0x1_0000) % 0x100) as u8);
    assert(s[2] == ((v / 0x100) % 0x100) as u8);
    assert(s[3] == (v % 0x100) as u8);
}

/// Reading what `write_u64` wrote gives the number that was written.
pub proof fn lemma_u64_round_trip(v: u64, rest: Seq<u8>)
    ensures
        decode_u64(encode_u64(v) + rest) == Ok::<(u64, Seq<u8>), FormatError>((v, rest)),
{
    let high = (v / 0x1_0000_0000) as u32;
    let low = (v % 0x1_0000_0000) as u32;
    let s = encode_u64(v) + rest;
    lemma_u32_round_trip(high, encode_u32(low) + rest);
    lemma_u32_round_trip(low, rest);
    assert(s =~= encode_u32(high) + (encode_u32(low) + rest));
    assert(s.skip(8) =~= rest);
    assert(s.skip(4) =~= encode_u32(low) + rest);
    assert(s.skip(4)[0] == s[4]);
    assert(s.skip(4)[1] == s[5]);
    assert(s.skip(4)[2] == s[6]);
    assert(s.skip(4)[3] == s[7]);
}

/// Reading what `write_bool` wrote gives the truth value that was written.
pub proof fn lemma_bool_round_trip(v: bool, rest: Seq<u8>)
    ensures
        decode_bool(encode_bool(v) + rest) == Ok::<(bool, Seq<u8>), FormatError>((v, rest)),
{
    assert((encode_bool(v) + rest).skip(1) =~= rest);
}

/// Reading what `write_string` wrote gives the text that was written.
pub proof fn lemma_string_round_trip(text: Seq<char>, rest: Seq<u8>)
    requires
        encode_utf8(text).len() <= u32::MAX,
    ensures
        decode_string(encode_string(text) + rest) == Ok::<(Seq<char>, Seq<u8>), FormatError>(
            (text, rest),
        ),
{
    let bytes = encode_utf8(text);
    let s = encode_string(text) + rest;
    assert(s =~= encode_varint(bytes.len()) + (bytes + rest));
    lemma_vint_round_trip(bytes.len() as u32, bytes + rest);
    assert((bytes + rest).take(bytes.len() as int) =~= bytes);
    assert((bytes + rest).skip(bytes.len() as int) =~= rest);
    encode_utf8_valid_utf8(text);
    encode_utf8_decode_utf8(text);
}

} // verus!
