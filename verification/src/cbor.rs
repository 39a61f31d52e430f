//! The two kinds of CBOR item that the library itself writes: text strings, which hold the
//! keys, and unsigned integers.
//!
//! Both begin with a head: a byte that carries the major type and either the argument
//! itself or the width of the big-endian argument that follows.
use minicbor::encode::write::Cursor;
use vstd::prelude::*;
use vstd::utf8::{decode_utf8, encode_utf8, valid_utf8};

verus! {

/// The first byte of an unsigned integer whose argument is 0.
pub const MAJOR_UNSIGNED: u8 = 0x00;

/// The first byte of a text string whose argument is 0.
pub const MAJOR_TEXT: u8 = 0x60;

/// The lowest `width` bytes of `n`, most significant first.
pub open spec fn be_bytes(n: nat, width: nat) -> Seq<u8>
    decreases width,
{
    if width == 0 {
        Seq::empty()
    } else {
        be_bytes(n / 256, (width - 1) as nat).push((n % 256) as u8)
    }
}

/// The number that `bytes` spell, most significant first.
pub open spec fn be_value(bytes: Seq<u8>) -> nat
    decreases bytes.len(),
{
    if bytes.len() == 0 {
        0
    } else {
        be_value(bytes.drop_last()) * 256 + bytes.last() as nat
    }
}

/// The shortest head of the given major type for the argument `n`.
pub open spec fn head(major: u8, n: nat) -> Seq<u8> {
    if n < 24 {
        seq![(major + n) as u8]
    } else if n < 0x100 {
        seq![(major + 24) as u8] + be_bytes(n, 1)
    } else if n < 0x1_0000 {
        seq![(major + 25) as u8] + be_bytes(n, 2)
    } else if n < 0x1_0000_0000 {
        seq![(major + 26) as u8] + be_bytes(n, 4)
    } else {
        seq![(major + 27) as u8] + be_bytes(n, 8)
    }
}

/// The argument and the length of the head of the given major type that `bytes` begin with.
///
/// The argument need not have been written in the shortest form.
pub open spec fn head_decoded(major: u8, bytes: Seq<u8>) -> Option<(nat, nat)> {
    if bytes.len() == 0 {
        None
    } else {
        let info = bytes[0] - major;
        if 0 <= info < 24 {
            Some((info as nat, 1))
        } else if info == 24 && bytes.len() >= 2 {
            Some((be_value(bytes.subrange(1, 2)), 2))
        } else if info == 25 && bytes.len() >= 3 {
            Some((be_value(bytes.subrange(1, 3)), 3))
        } else if info == 26 && bytes.len() >= 5 {
            Some((be_value(bytes.subrange(1, 5)), 5))
        } else if info == 27 && bytes.len() >= 9 {
            Some((be_value(bytes.subrange(1, 9)), 9))
        } else {
            None
        }
    }
}

/// The encoding of a text string.
pub open spec fn text(chars: Seq<char>) -> Seq<u8> {
    head(MAJOR_TEXT, encode_utf8(chars).len()) + encode_utf8(chars)
}

/// The text string that `bytes` begin with, if they begin with one of definite length.
pub open spec fn text_decoded(bytes: Seq<u8>) -> Option<Seq<char>> {
    match head_decoded(MAJOR_TEXT, bytes) {
        Some((n, at)) => if at + n <= bytes.len() && valid_utf8(
            bytes.subrange(at as int, (at + n) as int),
        ) {
            Some(decode_utf8(bytes.subrange(at as int, (at + n) as int)))
        } else {
            None
        },
        None => None,
    }
}

/// The encoding of an unsigned integer.
pub open spec fn unsigned(n: u64) -> Seq<u8> {
    head(MAJOR_UNSIGNED, n as nat)
}

/// The unsigned integer that `bytes` begin with, if they begin with one.
pub open spec fn unsigned_decoded(bytes: Seq<u8>) -> Option<nat> {
    match head_decoded(MAJOR_UNSIGNED, bytes) {
        Some((n, _)) => Some(n),
        None => None,
    }
}

/// Decodes the text string that `bytes` begin with (`minicbor::decode::<&str>`).
///
/// Claimed of it: it accepts a definite-length text string with a head of any width whose
/// bytes are all there and are UTF-8, ignores what follows, and accepts nothing else.
#[verifier::external_body]
pub(crate) fn decode_text<'a>(bytes: &'a [u8]) -> (r: Option<&'a str>)
    ensures
        match r {
            Some(key) => text_decoded(bytes@) == Some(key@),
            None => text_decoded(bytes@) is None,
        },
{
    minicbor::decode::<&str>(bytes).ok()
}

/// The length of the encoding of a text string (`minicbor::len_with`).
///
/// Claimed of it: it is the length of the encoding with the shortest head.
#[verifier::external_body]
pub(crate) fn text_len(key: &str) -> (n: usize)
    ensures
        n == text(key@).len(),
{
    minicbor::len_with(key, &mut ())
}

/// Encodes a text string into the front of `buf` (`minicbor::encode` into a `Cursor`).
///
/// Claimed of it: where the encoding with the shortest head fits, it is written, its length
/// comes back, and the rest of the buffer stays as it was; where it does not fit, nothing
/// comes back.
#[verifier::external_body]
pub(crate) fn encode_text(key: &str, buf: &mut [u8]) -> (r: Option<usize>)
    ensures
        final(buf)@.len() == old(buf)@.len(),
        r is Some <==> text(key@).len() <= old(buf)@.len(),
        r matches Some(n) ==> n == text(key@).len() && final(buf)@ == text(key@) + old(buf)@.skip(
            n as int,
        ),
{
    let mut cursor = Cursor::new(&mut *buf);
    minicbor::encode(key, &mut cursor).ok()?;
    Some(cursor.position())
}

/// Decodes the unsigned integer that `bytes` begin with (`minicbor::decode::<u64>`).
///
/// Claimed of it: it accepts a head of any width for an unsigned integer, ignores what
/// follows, and accepts nothing else.
#[verifier::external_body]
pub(crate) fn decode_unsigned(bytes: &[u8]) -> (r: Option<u64>)
    ensures
        match r {
            Some(n) => unsigned_decoded(bytes@) == Some(n as nat),
            None => unsigned_decoded(bytes@) is None,
        },
{
    minicbor::decode::<u64>(bytes).ok()
}

/// Encodes an unsigned integer into the front of `buf` (`minicbor::encode` into a `Cursor`).
///
/// Claimed of it: as of [`encode_text`], for the shortest encoding of `n`.
#[verifier::external_body]
pub(crate) fn encode_unsigned(n: u64, buf: &mut [u8]) -> (r: Option<usize>)
    ensures
        final(buf)@.len() == old(buf)@.len(),
        r is Some <==> unsigned(n).len() <= old(buf)@.len(),
        r matches Some(used) ==> used == unsigned(n).len() && final(buf)@ == unsigned(n) + old(
            buf,
        )@.skip(used as int),
{
    let mut cursor = Cursor::new(&mut *buf);
    minicbor::encode(n, &mut cursor).ok()?;
    Some(cursor.position())
}

/// A number that fits in one, two, four or eight bytes is spelled by its bytes.
proof fn lemma_be_bytes_value(n: nat, width: nat)
    requires
        width == 1 && n < 0x100 || width == 2 && n < 0x1_0000 || width == 4 && n < 0x1_0000_0000
            || width == 8 && n < 0x1_0000_0000_0000_0000,
    ensures
        be_bytes(n, width).len() == width,
        be_value(be_bytes(n, width)) == n,
{
    lemma_be_bytes_len(n, width);
    lemma_be_value_mod(n, width);
    reveal_with_fuel(pow256, 9);
}

/// How many numbers `width` bytes can spell.
spec fn pow256(width: nat) -> nat
    decreases width,
{
    if width == 0 {
        1
    } else {
        256 * pow256((width - 1) as nat)
    }
}

proof fn lemma_be_bytes_len(n: nat, width: nat)
    ensures
        be_bytes(n, width).len() == width,
    decreases width,
{
    if width > 0 {
        lemma_be_bytes_len(n / 256, (width - 1) as nat);
    }
}

proof fn lemma_be_value_mod(n: nat, width: nat)
    ensures
        n < pow256(width) ==> be_value(be_bytes(n, width)) == n,
    decreases width,
{
    if width > 0 {
        let high = be_bytes(n / 256, (width - 1) as nat);
        lemma_be_value_mod(n / 256, (width - 1) as nat);
        assert(be_bytes(n, width).drop_last() =~= high);
        assert(be_bytes(n, width).last() == (n % 256) as u8);
    }
}

/// A head is read back from any bytes that begin with it.
pub proof fn lemma_head_round_trip(major: u8, n: nat, rest: Seq<u8>)
    requires
        n < 0x1_0000_0000_0000_0000,
        major <= 0xe0,
    ensures
        1 <= head(major, n).len() <= 9,
        head_decoded(major, head(major, n) + rest) == Some((n, head(major, n).len())),
{
    let bytes = head(major, n) + rest;
    if n < 24 {
        assert(bytes[0] == (major + n) as u8);
    } else {
        let width: nat = if n < 0x100 {
            1
        } else if n < 0x1_0000 {
            2
        } else if n < 0x1_0000_0000 {
            4
        } else {
            8
        };
        lemma_be_bytes_value(n, width);
        assert(bytes.subrange(1, 1 + width as int) =~= be_bytes(n, width));
    }
}

/// A text string is read back from any bytes that begin with it.
pub proof fn lemma_text_round_trip(chars: Seq<char>, rest: Seq<u8>)
    requires
        encode_utf8(chars).len() < 0x1_0000_0000_0000_0000,
    ensures
        text_decoded(text(chars) + rest) == Some(chars),
        (text(chars) + rest).skip(text(chars).len() as int) == rest,
{
    let bytes = encode_utf8(chars);
    let start = head(MAJOR_TEXT, bytes.len());
    lemma_head_round_trip(MAJOR_TEXT, bytes.len(), bytes + rest);
    assert(text(chars) + rest =~= start + (bytes + rest));
    assert((text(chars) + rest).subrange(start.len() as int, (start.len() + bytes.len()) as int)
        =~= bytes);
    vstd::utf8::encode_utf8_valid_utf8(chars);
    vstd::utf8::encode_utf8_decode_utf8(chars);
    assert((text(chars) + rest).skip(text(chars).len() as int) =~= rest);
}

/// An unsigned integer is read back from any bytes that begin with it.
pub proof fn lemma_unsigned_round_trip(n: u64, rest: Seq<u8>)
    ensures
        unsigned_decoded(unsigned(n) + rest) == Some(n as nat),
{
    lemma_head_round_trip(MAJOR_UNSIGNED, n as nat, rest);
}

} // verus!
