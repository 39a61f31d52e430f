//! Writing the nodes as a write record, element by element.
//!
//! [`Writing`] yields the elements to push; it does no I/O itself.
use crate::cbor;
use crate::consts::V0_DATA;
use crate::crc32::{crc32_of, Crc32};
use crate::elem::{key_val_of, Elem, ElemView, SeqNo, SerData};
use crate::error::Error;
use crate::storage::{count, counted};
use crate::storage_node::{Node, NodeView, VTable};
use vstd::prelude::*;

verus! {

impl<T, V: VTable<T>> NodeView<T, V> {
    /// Key and value of the node, as they stand behind the header of a data element.
    pub open spec fn key_val(self) -> Seq<u8> {
        cbor::text(self.key) + self.vtable.encoded(self.value->0)->0
    }

    /// The data element for the node.
    pub open spec fn data_elem(self) -> ElemView {
        ElemView::Data { bytes: seq![V0_DATA] + self.key_val() }
    }

    /// Whether the data element for the node can be built in `capacity` bytes.
    pub open spec fn fits(self, capacity: nat) -> bool {
        self.vtable.encoded(self.value->0) is Some && 1 + self.key_val().len() <= capacity
    }
}

/// The data elements for the nodes that hold a value, in the order of the nodes.
pub open spec fn data_elems<T, V: VTable<T>>(nodes: Seq<NodeView<T, V>>) -> Seq<ElemView>
    decreases nodes.len(),
{
    if nodes.len() == 0 {
        Seq::empty()
    } else if nodes.last().state.has_value() {
        data_elems(nodes.drop_last()).push(nodes.last().data_elem())
    } else {
        data_elems(nodes.drop_last())
    }
}

/// Keys and values of the nodes that hold a value, one after the other.
pub open spec fn all_key_vals<T, V: VTable<T>>(nodes: Seq<NodeView<T, V>>) -> Seq<u8>
    decreases nodes.len(),
{
    if nodes.len() == 0 {
        Seq::empty()
    } else if nodes.last().state.has_value() {
        all_key_vals(nodes.drop_last()) + nodes.last().key_val()
    } else {
        all_key_vals(nodes.drop_last())
    }
}

/// Whether the data elements for all nodes that hold a value can be built in `capacity`
/// bytes.
pub open spec fn all_fit<T, V: VTable<T>>(nodes: Seq<NodeView<T, V>>, capacity: nat) -> bool {
    forall|i: int|
        0 <= i < nodes.len() && nodes[i].state.has_value() ==> (#[trigger] nodes[i]).fits(capacity)
}

/// The write record with the given number for the nodes.
pub open spec fn record_elems<T, V: VTable<T>>(
    nodes: Seq<NodeView<T, V>>,
    seq: u32,
) -> Seq<ElemView> {
    seq![ElemView::Start { seq }] + data_elems(nodes) + seq![
        ElemView::End { seq, crc: crc32_of(all_key_vals(nodes)) },
    ]
}

/// Information regarding a successful Record Write
#[derive(Clone, Copy, Debug, PartialEq, Eq, Structural)]
pub struct WriteReport {
    /// The sequence number used for writing the record
    pub seq: SeqNo,
    /// The CRC of data contained in this record
    pub crc: u32,
    /// The count of data items contained in this record
    pub ct: usize,
    /// The total number of bytes written for this record
    pub bytes_written: usize,
}

/// Serialize a storage node by writing its key and payload data
/// into the provided buffer.
///
/// # Format
///
/// The key is serialized as a CBOR `&str`, followed by the serialized payload `T`.
///
/// # Returns
///
/// * `Ok(usize)` - The total number of bytes written to the buffer
/// * `Err(Error::Serialization)` - If serialization fails (e.g., buffer too small, serialization error)
pub fn serialize_node<T, V: VTable<T>>(node: &Node<T, V>, buf: &mut [u8]) -> (r: Result<
    usize,
    Error,
>)
    requires
        node.t is Some,
    ensures
        final(buf)@.len() == old(buf)@.len(),
        r is Ok <==> node@.fits((old(buf)@.len() + 1) as nat),
        match r {
            Ok(used) => {
                &&& used == node@.key_val().len()
                &&& final(buf)@ == node@.key_val() + old(buf)@.skip(used as int)
            },
            Err(e) => e is Serialization,
        },
{
    let t = match &node.t {
        Some(t) => t,
        None => {
            return Err(Error::Serialization);
        },
    };
    let ghost before = buf@;
    assert(before.len() == buf.len());
    let used: usize = match cbor::encode_text(node.key.as_str(), buf) {
        Some(used) => used,
        None => {
            return Err(Error::Serialization);
        },
    };
    let (_key, remain) = buf.split_at_mut(used);
    assert(remain@ =~= before.skip(used as int));
    match node.vtable.serialize(t, remain) {
        Ok(len) => {
            proof {
                assert(before.skip(used as int).skip(len as int) =~= before.skip(used + len));
            }
            Ok(len + used)
        },
        Err(_) => Err(Error::Serialization),
    }
}

/// The writing of a record in progress
pub struct Writing<T, V> {
    seq: SeqNo,
    crc: Crc32,
    ct: usize,
    bytes_written: usize,
    ghost_state: Ghost<(Seq<NodeView<T, V>>, nat)>,
}

impl<T, V: VTable<T>> Writing<T, V> {
    /// The number of the record.
    pub closed spec fn number(&self) -> u32 {
        self.seq@
    }

    /// The nodes that have been taken.
    pub closed spec fn nodes(&self) -> Seq<NodeView<T, V>> {
        self.ghost_state@.0
    }

    /// The bytes that the pushed elements take.
    pub closed spec fn written(&self) -> nat {
        self.ghost_state@.1
    }

    /// The fields say of the nodes what they are meant to.
    pub closed spec fn wf(&self) -> bool {
        &&& self.crc@ == all_key_vals(self.nodes())
        &&& self.ct == data_elems(self.nodes()).len()
        &&& self.bytes_written == counted(self.written())
    }

    /// Begin a record.
    pub fn new(seq: SeqNo) -> (r: Self)
        ensures
            r.wf(),
            r.number() == seq@,
            r.nodes() == Seq::<NodeView<T, V>>::empty(),
            r.written() == 0,
    {
        Writing {
            seq,
            crc: Crc32::new(),
            ct: 0,
            bytes_written: 0,
            ghost_state: Ghost((Seq::empty(), 0)),
        }
    }

    /// The Start element of the record.
    pub fn start_elem(&self) -> (r: Elem<'static>)
        ensures
            r@ == (ElemView::Start { seq: self.number() }),
    {
        Elem::Start { seq_no: self.seq }
    }

    /// Take the next node, and build its data element in `buf`, if the node holds a value.
    pub fn data_elem<'b>(&mut self, node: &Node<T, V>, buf: &'b mut [u8]) -> (r: Result<
        Option<Elem<'b>>,
        Error,
    >)
        requires
            old(self).wf(),
            old(self).nodes().len() < usize::MAX,
            node@.wf(),
        ensures
            final(buf)@.len() == old(buf)@.len(),
            final(self).number() == old(self).number(),
            final(self).written() == old(self).written(),
            match r {
                Ok(Some(elem)) => node.state.has_value() && node@.fits(old(buf)@.len()) && elem@
                    == node@.data_elem(),
                Ok(None) => !node.state.has_value(),
                Err(e) => e is Serialization && node.state.has_value() && !node@.fits(
                    old(buf)@.len(),
                ),
            },
            r is Ok ==> final(self).wf() && final(self).nodes() == old(self).nodes().push(node@),
    {
        let ghost nodes = self.nodes();
        let ghost after = nodes.push(node@);
        proof {
            assert(after.drop_last() =~= nodes);
            assert(after.last() == node@);
            lemma_data_elems_len(nodes);
        }
        if node.t.is_none() {
            proof {
                self.ghost_state@ = (after, self.written());
            }
            return Ok(None);
        }
        if buf.len() == 0 {
            return Err(Error::Serialization);
        }
        let ghost before = buf@;
        let (_first, rest) = buf.split_at_mut(1);
        let used: usize = match serialize_node(node, rest) {
            Ok(used) => used,
            Err(e) => {
                return Err(e);
            },
        };
        let (front, _unused) = buf.split_at_mut(used + 1);
        match SerData::new(front) {
            Some(data) => {
                proof {
                    assert(data@ =~= seq![V0_DATA] + node@.key_val());
                    assert(key_val_of(data@) =~= node@.key_val());
                    self.ghost_state@ = (after, self.written());
                }
                self.crc.update(data.key_val());
                self.ct = self.ct + 1;
                Ok(Some(Elem::Data { data }))
            },
            None => Err(Error::Serialization),
        }
    }

    /// Note that an element has been pushed, and how many bytes it takes.
    pub fn pushed(&mut self, used: usize)
        requires
            old(self).wf(),
        ensures
            final(self).wf(),
            final(self).number() == old(self).number(),
            final(self).nodes() == old(self).nodes(),
            final(self).written() == old(self).written() + used,
    {
        self.bytes_written = count(self.bytes_written, used);
        proof {
            self.ghost_state@ = (self.nodes(), self.written() + used as nat);
        }
    }

    /// The End element of the record, and the report to keep once it has been pushed too.
    pub fn finish(self) -> (r: (Elem<'static>, WriteReport))
        requires
            self.wf(),
        ensures
            r.0@ == (ElemView::End { seq: self.number(), crc: crc32_of(all_key_vals(self.nodes())) }),
            r.1.seq@ == self.number(),
            r.1.crc == crc32_of(all_key_vals(self.nodes())),
            r.1.ct == data_elems(self.nodes()).len(),
            r.1.bytes_written == counted(self.written()),
    {
        let crc: u32 = self.crc.finalize();
        (
            Elem::End { seq_no: self.seq, calc_crc: crc },
            WriteReport { seq: self.seq, crc, ct: self.ct, bytes_written: self.bytes_written },
        )
    }
}

proof fn lemma_data_elems_len<T, V: VTable<T>>(nodes: Seq<NodeView<T, V>>)
    ensures
        data_elems(nodes).len() <= nodes.len(),
    decreases nodes.len(),
{
    if nodes.len() > 0 {
        lemma_data_elems_len(nodes.drop_last());
    }
}

/// A node that holds a value has a data element.
pub proof fn lemma_data_elems_some<T, V: VTable<T>>(nodes: Seq<NodeView<T, V>>, i: int)
    requires
        0 <= i < nodes.len(),
        nodes[i].state.has_value(),
    ensures
        data_elems(nodes).len() > 0,
    decreases nodes.len(),
{
    if i < nodes.len() - 1 {
        assert(nodes.drop_last()[i] == nodes[i]);
        lemma_data_elems_some(nodes.drop_last(), i);
    }
}

/// The data elements for the first nodes are the first data elements.
pub proof fn lemma_data_elems_prefix<T, V: VTable<T>>(nodes: Seq<NodeView<T, V>>, n: int)
    requires
        0 <= n <= nodes.len(),
    ensures
        data_elems(nodes.take(n)).is_prefix_of(data_elems(nodes)),
    decreases nodes.len() - n,
{
    if n < nodes.len() {
        lemma_data_elems_prefix(nodes, n + 1);
        assert(nodes.take(n + 1).drop_last() =~= nodes.take(n));
        let a = data_elems(nodes.take(n));
        let b = data_elems(nodes.take(n + 1));
        let c = data_elems(nodes);
        assert(a =~= c.subrange(0, a.len() as int)) by {
            assert(b =~= c.subrange(0, b.len() as int));
            assert forall|i: int| 0 <= i < a.len() implies #[trigger] a[i] == c[i] by {
                assert(a[i] == b[i]);
                assert(b[i] == c.subrange(0, b.len() as int)[i]);
            }
        }
    } else {
        assert(nodes.take(n) =~= nodes);
    }
}

} // verus!
