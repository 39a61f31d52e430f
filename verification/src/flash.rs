//! How elements lie in a flash queue: their bytes, and the room they take.
use crate::consts::{V0_DATA, V0_END, V0_START};
use crate::elem::{Elem, ElemView, SeqNo, SerData};
use vstd::prelude::*;

verus! {

/// The four bytes of `n`, least significant first.
pub open spec fn le_bytes(n: u32) -> Seq<u8> {
    seq![
        (n % 256) as u8,
        (n / 256 % 256) as u8,
        (n / 65536 % 256) as u8,
        (n / 16777216 % 256) as u8,
    ]
}

/// The number that the four bytes of `s` from `at` on spell, least significant first.
pub open spec fn le_value(s: Seq<u8>, at: int) -> u32 {
    (s[at] + 256 * s[at + 1] + 65536 * s[at + 2] + 16777216 * s[at + 3]) as u32
}

/// The bytes that stand for an element in storage.
pub open spec fn framed(elem: ElemView) -> Seq<u8> {
    match elem {
        ElemView::Start { seq } => seq![V0_START] + le_bytes(seq),
        ElemView::Data { bytes } => bytes,
        ElemView::End { seq, crc } => seq![V0_END] + le_bytes(seq) + le_bytes(crc),
    }
}

/// The element that bytes in storage stand for, if they stand for one.
pub open spec fn parsed(bytes: Seq<u8>) -> Option<ElemView> {
    if bytes.len() == 5 && bytes[0] == V0_START && le_value(bytes, 1) != 0 {
        Some(ElemView::Start { seq: le_value(bytes, 1) })
    } else if bytes.len() >= 2 && bytes[0] == V0_DATA {
        Some(ElemView::Data { bytes })
    } else if bytes.len() == 9 && bytes[0] == V0_END && le_value(bytes, 1) != 0 {
        Some(ElemView::End { seq: le_value(bytes, 1), crc: le_value(bytes, 5) })
    } else {
        None
    }
}

/// Whether an element is one that storage can hold: record numbers are not 0, and a data
/// element has the data header and something behind it.
pub open spec fn storable(elem: ElemView) -> bool {
    match elem {
        ElemView::Start { seq } => seq != 0,
        ElemView::Data { bytes } => bytes.len() >= 2 && bytes[0] == V0_DATA,
        ElemView::End { seq, crc } => seq != 0,
    }
}

proof fn lemma_le_round_trip(n: u32, s: Seq<u8>, at: int)
    requires
        0 <= at,
        at + 4 <= s.len(),
        s.subrange(at, at + 4) == le_bytes(n),
    ensures
        le_value(s, at) == n,
{
    let b = s.subrange(at, at + 4);
    assert(b[0] == s[at] && b[1] == s[at + 1] && b[2] == s[at + 2] && b[3] == s[at + 3]);
    assert(b[0] as int == n as int % 256);
    assert(b[1] as int == n as int / 256 % 256);
    assert(b[2] as int == n as int / 65536 % 256);
    assert(b[3] as int == n as int / 16777216 % 256);
}

proof fn lemma_le_bytes_of_value(s: Seq<u8>, at: int)
    requires
        0 <= at,
        at + 4 <= s.len(),
    ensures
        le_bytes(le_value(s, at)) == s.subrange(at, at + 4),
{
    let n = s[at] + 256 * s[at + 1] + 65536 * s[at + 2] + 16777216 * s[at + 3];
    assert(0 <= n <= u32::MAX);
    assert(n % 256 == s[at]);
    assert(n / 256 % 256 == s[at + 1]);
    assert(n / 65536 % 256 == s[at + 2]);
    assert(n / 16777216 % 256 == s[at + 3]);
    assert(le_bytes(le_value(s, at)) =~= s.subrange(at, at + 4));
}

/// What is written as an element is read as the same element.
pub proof fn law_parsed_framed(elem: ElemView)
    requires
        storable(elem),
    ensures
        parsed(framed(elem)) == Some(elem),
{
    let bytes = framed(elem);
    match elem {
        ElemView::Start { seq } => {
            assert(bytes.subrange(1, 5) =~= le_bytes(seq));
            lemma_le_round_trip(seq, bytes, 1);
        },
        ElemView::Data { .. } => {},
        ElemView::End { seq, crc } => {
            assert(bytes.subrange(1, 5) =~= le_bytes(seq));
            lemma_le_round_trip(seq, bytes, 1);
            assert(bytes.subrange(5, 9) =~= le_bytes(crc));
            lemma_le_round_trip(crc, bytes, 5);
        },
    }
}

/// Bytes that are read as an element are the bytes that this element is written as, and
/// only elements that storage can hold are read.
pub proof fn law_framed_parsed(bytes: Seq<u8>)
    ensures
        parsed(bytes) matches Some(elem) ==> framed(elem) == bytes && storable(elem),
{
    if parsed(bytes) is Some {
        match parsed(bytes)->0 {
            ElemView::Start { seq } => {
                lemma_le_bytes_of_value(bytes, 1);
                assert(framed(ElemView::Start { seq }) =~= bytes);
            },
            ElemView::Data { .. } => {},
            ElemView::End { seq, crc } => {
                lemma_le_bytes_of_value(bytes, 1);
                lemma_le_bytes_of_value(bytes, 5);
                assert(framed(ElemView::End { seq, crc }) =~= bytes);
            },
        }
    }
}

/// A partially decoded element
///
/// This mimics [`Elem`], so that the raw data is not decoded again on every access. Good
/// start/end data is kept; of a data element it is only remembered that the bytes are one.
#[derive(Clone, Copy, Debug, PartialEq, Eq, Structural)]
pub enum HalfElem {
    /// Start element
    Start { seq_no: SeqNo },
    /// Data element, whose bytes are kept elsewhere
    Data,
    /// End element
    End { seq_no: SeqNo, calc_crc: u32 },
}

impl HalfElem {
    /// The element that this is together with the bytes it was decoded from.
    pub open spec fn with(self, bytes: Seq<u8>) -> ElemView {
        match self {
            HalfElem::Start { seq_no } => ElemView::Start { seq: seq_no@ },
            HalfElem::Data => ElemView::Data { bytes },
            HalfElem::End { seq_no, calc_crc } => ElemView::End { seq: seq_no@, crc: calc_crc },
        }
    }

    /// Decode the bytes of an item, if they stand for an element.
    pub fn from_bytes(data: &[u8]) -> (r: Option<HalfElem>)
        ensures
            match r {
                Some(half) => parsed(data@) == Some(half.with(data@)),
                None => parsed(data@) is None,
            },
    {
        if data.len() == 0 {
            return None;
        }
        if data[0] == V0_START {
            if data.len() != 5 {
                return None;
            }
            match SeqNo::new(read_le(data, 1)) {
                Some(seq_no) => Some(HalfElem::Start { seq_no }),
                None => None,
            }
        } else if data[0] == V0_DATA {
            if data.len() < 2 {
                None
            } else {
                Some(HalfElem::Data)
            }
        } else if data[0] == V0_END {
            if data.len() != 9 {
                return None;
            }
            let calc_crc: u32 = read_le(data, 5);
            match SeqNo::new(read_le(data, 1)) {
                Some(seq_no) => Some(HalfElem::End { seq_no, calc_crc }),
                None => None,
            }
        } else {
            None
        }
    }

    /// The element that this is together with the bytes it was decoded from.
    pub fn elem<'a>(self, bytes: &'a [u8]) -> (r: Option<Elem<'a>>)
        ensures
            r is None <==> self is Data && bytes@.len() == 0,
            r matches Some(elem) ==> elem@ == self.with(bytes@),
    {
        match self {
            HalfElem::Start { seq_no } => Some(Elem::Start { seq_no }),
            HalfElem::Data => match SerData::from_existing(bytes) {
                Some(data) => Some(Elem::Data { data }),
                None => None,
            },
            HalfElem::End { seq_no, calc_crc } => Some(Elem::End { seq_no, calc_crc }),
        }
    }
}

/// Read the four bytes of `data` from `at` on, least significant first.
fn read_le(data: &[u8], at: usize) -> (n: u32)
    requires
        at + 4 <= data@.len(),
    ensures
        n == le_value(data@, at as int),
{
    data[at] as u32 + 256 * (data[at + 1] as u32) + 65536 * (data[at + 2] as u32) + 16777216 * (
    data[at + 3] as u32)
}

/// Append the four bytes of `n`, least significant first.
fn push_le(bytes: &mut Vec<u8>, n: u32)
    ensures
        final(bytes)@ == old(bytes)@ + le_bytes(n),
{
    bytes.push((n % 256) as u8);
    bytes.push((n / 256 % 256) as u8);
    bytes.push((n / 65536 % 256) as u8);
    bytes.push((n / 16777216 % 256) as u8);
}

/// The bytes to push to the queue for an element.
pub fn frame(data: &Elem<'_>) -> (bytes: Vec<u8>)
    ensures
        bytes@ == framed(data@),
{
    match data {
        Elem::Start { seq_no } => {
            let mut bytes: Vec<u8> = Vec::new();
            bytes.push(V0_START);
            push_le(&mut bytes, seq_no.get());
            assert(bytes@ =~= seq![V0_START] + le_bytes(seq_no@));
            bytes
        },
        Elem::Data { data } => vstd::slice::slice_to_vec(data.hdr_key_val()),
        Elem::End { seq_no, calc_crc } => {
            let mut bytes: Vec<u8> = Vec::new();
            bytes.push(V0_END);
            push_le(&mut bytes, seq_no.get());
            push_le(&mut bytes, *calc_crc);
            assert(bytes@ =~= seq![V0_END] + le_bytes(seq_no@) + le_bytes(*calc_crc));
            bytes
        },
    }
}

/// The larger of two sizes.
pub open spec fn max_of(a: int, b: int) -> int {
    if a > b {
        a
    } else {
        b
    }
}

/// The least multiple of `step` that is not less than `n`.
pub open spec fn rounded_up(n: int, step: int) -> int {
    (n + step - 1) / step * step
}

/// Helper to compute the maximum of two usize values
pub fn max(a: usize, b: usize) -> (r: usize)
    ensures
        r == max_of(a as int, b as int),
{
    if a > b {
        a
    } else {
        b
    }
}

/// Calculate the size that an item of `len` bytes takes in the queue of a flash with the
/// given word sizes, when the queue adds `item_overhead` bytes to each item.
///
/// Items are padded to the larger of the two word sizes.
pub fn size_with_overhead(
    len: usize,
    item_overhead: usize,
    write_size: usize,
    read_size: usize,
) -> (r: usize)
    requires
        0 < max_of(write_size as int, read_size as int),
        item_overhead + rounded_up(len as int, max_of(write_size as int, read_size as int))
            <= usize::MAX,
    ensures
        r == item_overhead + rounded_up(
            len as int,
            max_of(write_size as int, read_size as int),
        ),
{
    let step: usize = max(write_size, read_size);
    let over: usize = len % step;
    proof {
        lemma_rounded_up(len as int, step as int);
    }
    if over == 0 {
        item_overhead + len
    } else {
        item_overhead + (len + (step - over))
    }
}

proof fn lemma_rounded_up(n: int, step: int)
    requires
        0 <= n,
        0 < step,
    ensures
        n % step == 0 ==> rounded_up(n, step) == n,
        n % step != 0 ==> rounded_up(n, step) == n + (step - n % step),
{
    let q = n / step;
    let m = n % step;
    vstd::arithmetic::div_mod::lemma_fundamental_div_mod(n, step);
    assert(step * q == q * step) by (nonlinear_arith);
    if m == 0 {
        vstd::arithmetic::div_mod::lemma_fundamental_div_mod_converse(
            n + step - 1,
            step,
            q,
            step - 1,
        );
    } else {
        assert((q + 1) * step == q * step + step) by (nonlinear_arith);
        vstd::arithmetic::div_mod::lemma_fundamental_div_mod_converse(
            n + step - 1,
            step,
            q + 1,
            m - 1,
        );
    }
}

/// The maximum size in bytes of an element that can be stored in a flash with the given
/// sector and word sizes: a sector, less its two words of metadata, less the overhead of an
/// item.
pub fn max_elem_size(
    erase_size: usize,
    write_size: usize,
    read_size: usize,
    item_overhead: usize,
) -> (r: usize)
    requires
        2 * max_of(write_size as int, read_size as int) + item_overhead <= erase_size,
    ensures
        r == erase_size - 2 * max_of(write_size as int, read_size as int) - item_overhead,
{
    erase_size - 2 * max(write_size, read_size) - item_overhead
}

/// The bytes of a number add up to it, each worth more than the one before.
pub proof fn law_bytes_of_a_number(n: u32)
    ensures
        le_bytes(n).len() == 4,
        n == le_bytes(n)[0] + 0x100 * le_bytes(n)[1] + 0x1_0000 * le_bytes(n)[2] + 0x100_0000
            * le_bytes(n)[3],
{
    let m = n as int;
    assert(m == m % 256 + 256 * (m / 256 % 256) + 65536 * (m / 65536 % 256) + 16777216 * (m
        / 16777216 % 256)) by (nonlinear_arith)
        requires
            0 <= m <= u32::MAX,
    ;
}

/// How an element lies in storage: a header, and behind it the number of the record, and at the
/// end of a record the checksum. A data element lies there as it is.
pub proof fn law_layout_of_elements(elem: ElemView)
    ensures
        match elem {
            ElemView::Start { seq } => {
                let b = framed(elem);
                &&& b.len() == 5
                &&& b[0] == V0_START
                &&& seq == b[1] + 0x100 * b[2] + 0x1_0000 * b[3] + 0x100_0000 * b[4]
            },
            ElemView::Data { bytes } => framed(elem) == bytes,
            ElemView::End { seq, crc } => {
                let b = framed(elem);
                &&& b.len() == 9
                &&& b[0] == V0_END
                &&& seq == b[1] + 0x100 * b[2] + 0x1_0000 * b[3] + 0x100_0000 * b[4]
                &&& crc == b[5] + 0x100 * b[6] + 0x1_0000 * b[7] + 0x100_0000 * b[8]
            },
        },
{
    match elem {
        ElemView::Start { seq } => {
            law_bytes_of_a_number(seq);
        },
        ElemView::Data { .. } => {},
        ElemView::End { seq, crc } => {
            law_bytes_of_a_number(seq);
            law_bytes_of_a_number(crc);
        },
    }
}

/// A storage can hold each record number but 0, and each data element with the data header and
/// at least one byte more.
pub proof fn law_what_can_be_stored(elem: ElemView)
    ensures
        storable(elem) <==> match elem {
            ElemView::Start { seq } => seq > 0,
            ElemView::Data { bytes } => bytes.len() >= 2 && bytes[0] == V0_DATA,
            ElemView::End { seq, crc } => seq > 0,
        },
{
}

/// An item is padded to the next multiple of the larger word size, and no further.
pub proof fn law_items_are_padded_to_words(len: int, write_size: int, read_size: int)
    requires
        0 <= len,
        0 < write_size || 0 < read_size,
    ensures
        ({
            let step = max_of(write_size, read_size);
            let padded = rounded_up(len, step);
            &&& step >= write_size && step >= read_size && (step == write_size || step == read_size)
            &&& len <= padded < len + step
            &&& padded % step == 0
        }),
{
    let step = max_of(write_size, read_size);
    lemma_rounded_up(len, step);
    vstd::arithmetic::div_mod::lemma_mod_bound(len, step);
    let q = (len + step - 1) / step;
    vstd::arithmetic::div_mod::lemma_mod_multiples_basic(q, step);
}

} // verus!
