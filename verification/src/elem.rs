//! The elements that a storage holds.
//!
//! A write record is a Start element, then one Data element for each value, then an End
//! element with the checksum of the data. [`framed`] gives the bytes that stand for an
//! element in storage, and [`parsed`] the element that given bytes stand for.
use crate::cbor::{decode_text, text_len};
use crate::consts::V0_DATA;
use crate::error::Error;
use vstd::prelude::*;
use vstd::slice::slice_subrange;

verus! {

/// The sequence number of a write record, which is never 0.
#[derive(Clone, Copy, Debug, PartialEq, Eq, Structural)]
pub struct SeqNo {
    n: u32,
}

impl SeqNo {
    /// The number itself.
    pub closed spec fn view(self) -> u32 {
        self.n
    }

    #[verifier::type_invariant]
    spec fn inv(self) -> bool {
        self.n != 0
    }

    /// The sequence number `n`, unless `n` is 0.
    pub fn new(n: u32) -> (r: Option<SeqNo>)
        ensures
            r is Some <==> n != 0,
            r matches Some(seq) ==> seq@ == n,
    {
        if n == 0 {
            None
        } else {
            Some(SeqNo { n })
        }
    }

    /// The number itself.
    pub fn get(self) -> (n: u32)
        ensures
            n == self@,
            n != 0,
    {
        proof {
            use_type_invariant(self);
        }
        self.n
    }

    /// The number after this one, unless this one is the last.
    pub fn checked_next(self) -> (r: Option<SeqNo>)
        ensures
            r is Some <==> self@ < u32::MAX,
            r matches Some(seq) ==> seq@ == self@ + 1,
    {
        if self.n == u32::MAX {
            None
        } else {
            Some(SeqNo { n: self.n + 1 })
        }
    }
}

/// What an element holds.
pub enum ElemView {
    /// Start element of the given write record
    Start { seq: u32 },
    /// Data element: header, key and value
    Data { bytes: Seq<u8> },
    /// End element of the given write record, with the checksum of its data
    End { seq: u32, crc: u32 },
}

/// The part of a data element behind its header: key and value.
pub open spec fn key_val_of(bytes: Seq<u8>) -> Seq<u8> {
    if bytes.len() == 0 {
        bytes
    } else {
        bytes.skip(1)
    }
}

/// The key and the body that key and value split into, if they do.
pub open spec fn kv_of(key_val: Seq<u8>) -> Option<(Seq<char>, Seq<u8>)> {
    match crate::cbor::text_decoded(key_val) {
        Some(key) => if crate::cbor::text(key).len() <= key_val.len() {
            Some((key, key_val.skip(crate::cbor::text(key).len() as int)))
        } else {
            None
        },
        None => None,
    }
}

/// Serialized Data Element
///
/// Includes header, key, and value
#[derive(Debug, PartialEq)]
pub struct SerData<'a> {
    hdr_key_val: &'a [u8],
}

impl<'a> SerData<'a> {
    /// Header, key and value.
    pub closed spec fn view(&self) -> Seq<u8> {
        self.hdr_key_val@
    }

    #[verifier::type_invariant]
    spec fn inv(self) -> bool {
        self.hdr_key_val@.len() > 0
    }

    /// Create a new Serialized Data Element.
    ///
    /// `data[0]` MUST be the header position, with key+val starting
    /// at `data[1]`. The header will be overwritten with the data discriminant
    ///
    /// Returns None if the slice is empty.
    pub fn new(data: &'a mut [u8]) -> (r: Option<SerData<'a>>)
        ensures
            r is Some <==> old(data)@.len() > 0,
            r is None ==> final(data)@ == old(data)@,
            r matches Some(ser) ==> ser@ == old(data)@.update(0, V0_DATA) && final(data)@ == ser@,
    {
        if data.len() == 0 {
            None
        } else {
            data[0] = V0_DATA;
            Some(SerData { hdr_key_val: data })
        }
    }

    /// Create a Serialized Data Element from an existing slice. The
    /// discriminant will NOT be written.
    ///
    /// Returns None if the slice is empty.
    pub fn from_existing(data: &'a [u8]) -> (r: Option<SerData<'a>>)
        ensures
            r is Some <==> data@.len() > 0,
            r matches Some(ser) ==> ser@ == data@,
    {
        if data.len() == 0 {
            None
        } else {
            Some(SerData { hdr_key_val: data })
        }
    }

    /// Header, key and value.
    pub fn hdr_key_val(&self) -> (r: &[u8])
        ensures
            r@ == self@,
            r@.len() > 0,
    {
        proof {
            use_type_invariant(self);
        }
        self.hdr_key_val
    }

    /// Obtain the header
    pub fn hdr(&self) -> (hdr: u8)
        ensures
            self@.len() > 0,
            hdr == self@[0],
    {
        proof {
            use_type_invariant(self);
        }
        self.hdr_key_val[0]
    }

    /// Get the key+val portion of the SerData
    pub fn key_val(&self) -> (r: &[u8])
        ensures
            r@ == key_val_of(self@),
    {
        proof {
            use_type_invariant(self);
        }
        slice_subrange(self.hdr_key_val, 1, self.hdr_key_val.len())
    }

    /// Get the split key and value. This is the same data as [Self::key_val], but one parsing step further.
    ///
    /// The value contains the cbor bytes
    pub fn kv_pair(&self) -> (r: Result<KvPair<'_>, Error>)
        ensures
            match r {
                Ok(kv) => kv_of(key_val_of(self@)) == Some((kv.key@, kv.body@)),
                Err(e) => e is Deserialization && kv_of(key_val_of(self@)) is None,
            },
    {
        let item = self.key_val();
        match decode_text(item) {
            Some(key) => {
                let len: usize = text_len(key);
                if len <= item.len() {
                    Ok(KvPair { key, body: slice_subrange(item, len, item.len()) })
                } else {
                    Err(Error::Deserialization)
                }
            },
            None => Err(Error::Deserialization),
        }
    }
}

/// A key-value pair
pub struct KvPair<'a> {
    /// The key of the pair
    pub key: &'a str,
    /// The body of the pair
    pub body: &'a [u8],
}

/// A single element stored in flash
#[derive(Debug, PartialEq)]
pub enum Elem<'a> {
    /// Start element
    Start {
        /// The "write record" sequence number
        seq_no: SeqNo,
    },
    /// Data element
    Data {
        /// Contains the serialized key and value for the current data element
        data: SerData<'a>,
    },
    /// End element
    End {
        /// The "write record" sequence number. Must match `Elem::Start { seq_no }`
        /// to properly end a "write record".
        seq_no: SeqNo,
        /// The CRC32 of ALL `Elem::Data { data }` fields, in the order they appear
        /// in the FIFO queue.
        calc_crc: u32,
    },
}

impl<'a> Elem<'a> {
    /// What the element holds.
    pub open spec fn view(&self) -> ElemView {
        match self {
            Elem::Start { seq_no } => ElemView::Start { seq: seq_no@ },
            Elem::Data { data } => ElemView::Data { bytes: data@ },
            Elem::End { seq_no, calc_crc } => ElemView::End { seq: seq_no@, crc: *calc_crc },
        }
    }
}

} // verus!
