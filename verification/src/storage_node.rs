//! The nodes of a list, and what the data of a write record does to them.
use crate::cbor;
use crate::elem::{key_val_of, kv_of, ElemView};
use crate::storage::ItemView;
use vstd::prelude::*;

verus! {

/// State of a node
///
/// ```text
///             ─ ─ ─ ─ (6)
///            │
///            ▼
///       ┌─────────┐   (1)    ┌─────────────┐
///       │ Initial │─────────▶│ NonResident │
///       └─────────┘          └─────────────┘
///            │(2)                   │(3)
///            ▼                      ▼
/// ┌────────────────────┐ (4) ┌─────────────┐
/// │ ValidNoWriteNeeded │◀────│ NeedsWrite  │
/// └────────────────────┘     └─────────────┘
///            │           (5)        ▲
///            └──────────────────────┘
/// ```
#[derive(Clone, Copy, Debug, PartialEq, Eq, Structural)]
pub enum State {
    /// The node has been created, but never "hydrated" with data from the flash. It holds
    /// no value.
    Initial,
    /// The flash has been read and holds no value for the node. The owner of the node has
    /// to provide one; until then the node holds no value.
    NonResident,
    /// The node holds a value, and the flash holds the same one.
    ValidNoWriteNeeded,
    /// The node holds a value that has not been flushed to the flash, which may be a
    /// default value.
    NeedsWrite,
}

impl State {
    /// The number of a state.
    pub open spec fn number(self) -> u8 {
        match self {
            State::Initial => 0,
            State::NonResident => 1,
            State::ValidNoWriteNeeded => 2,
            State::NeedsWrite => 3,
        }
    }

    /// Whether a node in this state holds a value.
    pub open spec fn has_value(self) -> bool {
        self is ValidNoWriteNeeded || self is NeedsWrite
    }

    /// Whether the state diagram leads from this state to `to`, on zero or more of the
    /// numbered edges, without a detach.
    pub open spec fn leads_to(self, to: State) -> bool {
        match self {
            State::Initial => true,
            State::NonResident => !(to is Initial),
            State::ValidNoWriteNeeded => to.has_value(),
            State::NeedsWrite => to.has_value(),
        }
    }

    /// Convert State to u8.
    pub fn into_u8(self) -> (value: u8)
        ensures
            value == self.number(),
    {
        match self {
            State::Initial => 0,
            State::NonResident => 1,
            State::ValidNoWriteNeeded => 2,
            State::NeedsWrite => 3,
        }
    }

    /// Convert u8 to a [`State`].
    ///
    /// The value must be one that [`Self::into_u8`] returns.
    pub fn from_u8(value: u8) -> (state: Self)
        requires
            value <= 3,
        ensures
            state.number() == value,
    {
        match value {
            0 => State::Initial,
            1 => State::NonResident,
            2 => State::ValidNoWriteNeeded,
            _ => State::NeedsWrite,
        }
    }
}

/// A state is known by its number, and the numbers are 0 to 3.
pub proof fn law_state_numbers(a: State, b: State)
    ensures
        a.number() <= 3,
        a.number() == b.number() ==> a == b,
{
}

/// Function table for serialization and deserialization operations
///
/// A value of this kind stands beside each node and says how the value of the node is
/// written and read, so that nodes for different types can stand in one list.
///
/// The specification functions have a body so that a table in plain Rust can leave them out.
/// It says nothing: a verified table gives its own.
pub trait VTable<T>: Sized {
    /// The bytes that stand for a value, unless it cannot be serialized.
    open spec fn encoded(&self, t: T) -> Option<Seq<u8>> {
        arbitrary()
    }

    /// The value that bytes begin with, if they can be deserialized.
    open spec fn decoded(&self, bytes: Seq<u8>) -> Option<T> {
        arbitrary()
    }

    /// Serialize a value into the front of the buffer.
    ///
    /// If successful, returns the number of bytes written to the buffer. Fails where the
    /// buffer is too small or the value cannot be serialized.
    fn serialize(&self, t: &T, buf: &mut [u8]) -> (r: Result<usize, ()>)
        ensures
            final(buf)@.len() == old(buf)@.len(),
            r is Ok <==> (self.encoded(*t) matches Some(bytes) && bytes.len() <= old(buf)@.len()),
            r matches Ok(n) ==> n == self.encoded(*t)->0.len() && final(buf)@ == self.encoded(
                *t,
            )->0 + old(buf)@.skip(n as int),
    ;

    /// Deserialize a value from the front of the buffer.
    fn deserialize(&self, buf: &[u8]) -> (r: Result<T, ()>)
        ensures
            match r {
                Ok(t) => self.decoded(buf@) == Some(t),
                Err(_) => self.decoded(buf@) is None,
            },
    ;

    /// The number of bytes that stand for a value.
    fn encoded_len(&self, t: &T) -> (n: usize)
        ensures
            self.encoded(*t) matches Some(bytes) ==> n == bytes.len(),
    ;
}

/// Unsigned integers, as CBOR has them
#[derive(Clone, Copy, Debug, PartialEq, Eq, Structural)]
pub struct CborUnsigned;

impl VTable<u64> for CborUnsigned {
    open spec fn encoded(&self, t: u64) -> Option<Seq<u8>> {
        Some(cbor::unsigned(t))
    }

    open spec fn decoded(&self, bytes: Seq<u8>) -> Option<u64> {
        match cbor::unsigned_decoded(bytes) {
            Some(n) => Some(n as u64),
            None => None,
        }
    }

    fn serialize(&self, t: &u64, buf: &mut [u8]) -> (r: Result<usize, ()>) {
        match cbor::encode_unsigned(*t, buf) {
            Some(n) => Ok(n),
            None => Err(()),
        }
    }

    fn deserialize(&self, buf: &[u8]) -> (r: Result<u64, ()>) {
        match cbor::decode_unsigned(buf) {
            Some(t) => Ok(t),
            None => Err(()),
        }
    }

    fn encoded_len(&self, t: &u64) -> (n: usize) {
        proof {
            cbor::lemma_head_round_trip(cbor::MAJOR_UNSIGNED, *t as nat, Seq::empty());
        }
        if *t < 24 {
            1
        } else if *t < 0x100 {
            2
        } else if *t < 0x1_0000 {
            3
        } else if *t < 0x1_0000_0000 {
            5
        } else {
            9
        }
    }
}

/// An unsigned integer is read back as it was written.
pub proof fn law_unsigned_round_trip(n: u64)
    ensures
        CborUnsigned.encoded(n) matches Some(bytes) && CborUnsigned.decoded(bytes) == Some(n),
{
    cbor::lemma_unsigned_round_trip(n, Seq::empty());
    assert(cbor::unsigned(n) + Seq::<u8>::empty() =~= cbor::unsigned(n));
}

/// A node that is linked to a list
pub struct Node<T, V> {
    /// The "key" of our "key:value" store. Must be unique across the list.
    pub key: String,
    /// The current state of the node, which says whether there is a value
    pub state: State,
    /// How the value is written and read
    pub vtable: V,
    /// The value
    pub t: Option<T>,
}

/// What there is of a node.
pub struct NodeView<T, V> {
    pub key: Seq<char>,
    pub state: State,
    pub vtable: V,
    pub value: Option<T>,
}

impl<T, V> Node<T, V> {
    /// What there is of the node.
    pub open spec fn view(&self) -> NodeView<T, V> {
        NodeView { key: self.key@, state: self.state, vtable: self.vtable, value: self.t }
    }
}

impl<T, V> NodeView<T, V> {
    /// A node that waits for data.
    pub open spec fn fresh(key: Seq<char>, vtable: V) -> Self {
        NodeView { key, state: State::Initial, vtable, value: None }
    }

    /// There is a value in the states that say so, and in no other.
    pub open spec fn wf(self) -> bool {
        self.value is Some <==> self.state.has_value()
    }
}

/// What there is of nodes.
pub open spec fn nodes_view<T, V>(nodes: Seq<Node<T, V>>) -> Seq<NodeView<T, V>> {
    nodes.map_values(|node: Node<T, V>| node@)
}

/// No two nodes have one key.
pub open spec fn distinct_keys<T, V>(nodes: Seq<NodeView<T, V>>) -> bool {
    forall|i: int, j: int|
        0 <= i < j < nodes.len() ==> (#[trigger] nodes[i]).key != (#[trigger] nodes[j]).key
}

/// Each node holds a value exactly where its state says so.
pub open spec fn all_wf<T, V>(nodes: Seq<NodeView<T, V>>) -> bool {
    forall|i: int| 0 <= i < nodes.len() ==> (#[trigger] nodes[i]).wf()
}

/// Whether there is a node with the given key.
pub open spec fn has_key<T, V>(nodes: Seq<NodeView<T, V>>, key: Seq<char>) -> bool {
    exists|i: int| 0 <= i < nodes.len() && (#[trigger] nodes[i]).key == key
}

/// The index of the node with the given key.
pub open spec fn index_of<T, V>(nodes: Seq<NodeView<T, V>>, key: Seq<char>) -> int {
    choose|i: int| 0 <= i < nodes.len() && (#[trigger] nodes[i]).key == key
}

/// Where the keys are distinct, a node with a key is the one with that key.
pub proof fn lemma_index_of<T, V>(nodes: Seq<NodeView<T, V>>, key: Seq<char>, i: int)
    requires
        distinct_keys(nodes),
        0 <= i < nodes.len(),
        nodes[i].key == key,
    ensures
        has_key(nodes, key),
        index_of(nodes, key) == i,
{
    let j = index_of(nodes, key);
    if j < i {
        assert(nodes[j].key != nodes[i].key);
    } else if i < j {
        assert(nodes[i].key != nodes[j].key);
    }
}

/// The body that a data element holds for the given key, if it does.
pub open spec fn body_in(elem: Option<ElemView>, key: Seq<char>) -> Option<Seq<u8>> {
    match elem {
        Some(ElemView::Data { bytes }) => match kv_of(key_val_of(bytes)) {
            Some((k, body)) => if k == key {
                Some(body)
            } else {
                None
            },
            None => None,
        },
        _ => None,
    }
}

/// The body that the first data element with the given key holds.
pub open spec fn first_body(items: Seq<ItemView>, key: Seq<char>) -> Option<Seq<u8>>
    decreases items.len(),
{
    if items.len() == 0 {
        None
    } else {
        match first_body(items.drop_last(), key) {
            Some(body) => Some(body),
            None => body_in(items.last().elem, key),
        }
    }
}

impl<T, V: VTable<T>> NodeView<T, V> {
    /// The node after a read has found the given body for it, or none.
    ///
    /// A node that waits for data takes the value that the body decodes to; where it does
    /// not decode, the node is as if there were no data. No other node is touched.
    pub open spec fn offered(self, body: Option<Seq<u8>>) -> Self {
        if self.state is Initial && body is Some {
            match self.vtable.decoded(body->0) {
                Some(t) => NodeView {
                    state: State::ValidNoWriteNeeded,
                    value: Some(t),
                    ..self
                },
                None => NodeView { state: State::NonResident, ..self },
            }
        } else {
            self
        }
    }

    /// The node after the data elements among `items` have been read, in order.
    pub open spec fn hydrated(self, items: Seq<ItemView>) -> Self {
        self.offered(first_body(items, self.key))
    }
}

impl<T, V> NodeView<T, V> {
    /// The node after a read that has found all there is: a node that still waits for data
    /// is not resident.
    pub open spec fn settled(self) -> Self {
        if self.state is Initial {
            NodeView { state: State::NonResident, ..self }
        } else {
            self
        }
    }

    /// The node after a successful write.
    pub open spec fn flushed(self) -> Self {
        if self.state.has_value() {
            NodeView { state: State::ValidNoWriteNeeded, ..self }
        } else {
            self
        }
    }
}

/// All nodes, hydrated from `items`.
pub open spec fn all_hydrated<T, V: VTable<T>>(
    nodes: Seq<NodeView<T, V>>,
    items: Seq<ItemView>,
) -> Seq<NodeView<T, V>> {
    nodes.map_values(|node: NodeView<T, V>| node.hydrated(items))
}

/// All nodes, settled.
pub open spec fn all_settled<T, V>(nodes: Seq<NodeView<T, V>>) -> Seq<NodeView<T, V>> {
    nodes.map_values(|node: NodeView<T, V>| node.settled())
}

/// All nodes, flushed.
pub open spec fn all_flushed<T, V>(nodes: Seq<NodeView<T, V>>) -> Seq<NodeView<T, V>> {
    nodes.map_values(|node: NodeView<T, V>| node.flushed())
}

/// Hydrating from nothing changes nothing.
pub proof fn lemma_hydrated_empty<T, V: VTable<T>>(nodes: Seq<NodeView<T, V>>)
    ensures
        all_hydrated(nodes, Seq::empty()) == nodes,
{
    assert(all_hydrated(nodes, Seq::empty()) =~= nodes);
}

/// Hydrating from items and then from one more is hydrating from all of them.
pub proof fn lemma_hydrated_push<T, V: VTable<T>>(
    nodes: Seq<NodeView<T, V>>,
    items: Seq<ItemView>,
    item: ItemView,
)
    ensures
        all_hydrated(all_hydrated(nodes, items), seq![item]) == all_hydrated(
            nodes,
            items.push(item),
        ),
{
    assert(items.push(item).drop_last() =~= items);
    assert(seq![item].drop_last() =~= Seq::<ItemView>::empty());
    assert forall|key: Seq<char>|
        #![trigger first_body(seq![item], key)]
        #![trigger first_body(items.push(item), key)]
        first_body(seq![item], key) == body_in(item.elem, key) && first_body(items.push(item), key)
            == (match first_body(items, key) {
            Some(body) => Some(body),
            None => body_in(item.elem, key),
        }) by {
        assert(first_body(seq![item].drop_last(), key) is None);
    }
    assert(all_hydrated(all_hydrated(nodes, items), seq![item]) =~= all_hydrated(
        nodes,
        items.push(item),
    ));
}

/// Hydrating keeps the keys distinct and the nodes well-formed.
pub proof fn lemma_hydrated_wf<T, V: VTable<T>>(nodes: Seq<NodeView<T, V>>, items: Seq<ItemView>)
    requires
        distinct_keys(nodes),
        all_wf(nodes),
    ensures
        distinct_keys(all_hydrated(nodes, items)),
        all_wf(all_hydrated(nodes, items)),
{
    let after = all_hydrated(nodes, items);
    assert forall|i: int, j: int| 0 <= i < j < after.len() implies (#[trigger] after[i]).key != (
    #[trigger] after[j]).key by {
        assert(nodes[i].key != nodes[j].key);
    }
    assert forall|i: int| 0 <= i < after.len() implies (#[trigger] after[i]).wf() by {
        assert(nodes[i].wf());
    }
}

/// Whether two texts are one.
pub fn same_text(a: &str, b: &str) -> (r: bool)
    ensures
        r == (a@ == b@),
{
    let x = a.as_bytes();
    let y = b.as_bytes();
    proof {
        vstd::utf8::encode_utf8_decode_utf8(a@);
        vstd::utf8::encode_utf8_decode_utf8(b@);
    }
    if x.len() != y.len() {
        return false;
    }
    let mut i: usize = 0;
    while i < x.len()
        invariant
            i <= x@.len(),
            x@.len() == y@.len(),
            forall|k: int| 0 <= k < i ==> x@[k] == y@[k],
            x@ == vstd::utf8::encode_utf8(a@),
            y@ == vstd::utf8::encode_utf8(b@),
        decreases x@.len() - i,
    {
        if x[i] != y[i] {
            return false;
        }
        i += 1;
    }
    assert(x@ =~= y@);
    true
}

/// Find the node with the given `key`.
pub fn find_node<T, V>(nodes: &Vec<Node<T, V>>, key: &str) -> (r: Option<usize>)
    ensures
        match r {
            Some(i) => i < nodes@.len() && nodes@[i as int].key@ == key@ && forall|k: int|
                0 <= k < i ==> (#[trigger] nodes@[k]).key@ != key@,
            None => forall|k: int| 0 <= k < nodes@.len() ==> (#[trigger] nodes@[k]).key@ != key@,
        },
{
    let mut i: usize = 0;
    while i < nodes.len()
        invariant
            i <= nodes@.len(),
            forall|k: int| 0 <= k < i ==> (#[trigger] nodes@[k]).key@ != key@,
        decreases nodes@.len() - i,
    {
        if same_text(nodes[i].key.as_str(), key) {
            return Some(i);
        }
        i += 1;
    }
    None
}

/// Settling keeps the keys distinct and the nodes well-formed.
pub proof fn lemma_settled_wf<T, V>(nodes: Seq<NodeView<T, V>>)
    requires
        distinct_keys(nodes),
        all_wf(nodes),
    ensures
        distinct_keys(all_settled(nodes)),
        all_wf(all_settled(nodes)),
{
    let after = all_settled(nodes);
    assert forall|i: int, j: int| 0 <= i < j < after.len() implies (#[trigger] after[i]).key != (
    #[trigger] after[j]).key by {
        assert(nodes[i].key != nodes[j].key);
    }
    assert forall|i: int| 0 <= i < after.len() implies (#[trigger] after[i]).wf() by {
        assert(nodes[i].wf());
    }
}

/// Flushing keeps the keys distinct and the nodes well-formed.
pub proof fn lemma_flushed_wf<T, V>(nodes: Seq<NodeView<T, V>>)
    requires
        distinct_keys(nodes),
        all_wf(nodes),
    ensures
        distinct_keys(all_flushed(nodes)),
        all_wf(all_flushed(nodes)),
{
    let after = all_flushed(nodes);
    assert forall|i: int, j: int| 0 <= i < j < after.len() implies (#[trigger] after[i]).key != (
    #[trigger] after[j]).key by {
        assert(nodes[i].key != nodes[j].key);
    }
    assert forall|i: int| 0 <= i < after.len() implies (#[trigger] after[i]).wf() by {
        assert(nodes[i].wf());
    }
}

} // verus!
