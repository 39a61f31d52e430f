//! Laws of the values in a list: what each operation does to a node, and what it leaves alone.
use crate::error::Error;
use crate::model::ListView;
use crate::record::RecordView;
use crate::seq_state::slot_seq;
use crate::storage_node::{has_key, index_of, lemma_index_of, NodeView, State, VTable};
use vstd::prelude::*;

verus! {

/// A node holds a value in two of the four states: where the value needs a write, and where it
/// does not.
pub proof fn law_states_with_a_value(state: State)
    ensures
        state.has_value() <==> state == State::ValidNoWriteNeeded || state == State::NeedsWrite,
        !state.has_value() <==> state == State::Initial || state == State::NonResident,
{
}

/// Where no two nodes have one key, a node is found under its key, and no other is.
pub proof fn law_nodes_are_found_by_key<T, V>(nodes: Seq<NodeView<T, V>>, key: Seq<char>, i: int)
    requires
        forall|a: int, b: int|
            0 <= a < nodes.len() && 0 <= b < nodes.len() && a != b ==> (
            #[trigger] nodes[a]).key != (#[trigger] nodes[b]).key,
        0 <= i < nodes.len(),
    ensures
        nodes[i].key == key ==> has_key(nodes, key) && index_of(nodes, key) == i,
        has_key(nodes, key) ==> exists|k: int|
            0 <= k < nodes.len() && (#[trigger] nodes[k]).key == key,
{
    if nodes[i].key == key {
        lemma_index_of(nodes, key, i);
    }
}

/// A list is in order whenever no two nodes have one key, the nodes hold values in the states
/// that say so, and the slots are in the order of their numbers, which are below the next.
pub proof fn law_lists_in_order<T, V>(list: ListView<T, V>)
    requires
        forall|a: int, b: int|
            0 <= a < list.nodes.len() && 0 <= b < list.nodes.len() && a != b ==> (
            #[trigger] list.nodes[a]).key != (#[trigger] list.nodes[b]).key,
        forall|a: int|
            0 <= a < list.nodes.len() ==> ((#[trigger] list.nodes[a]).value is Some
                <==> list.nodes[a].state == State::ValidNoWriteNeeded || list.nodes[a].state
                == State::NeedsWrite),
        list.seq.records.len() > 0,
        forall|a: int, b: int|
            0 <= a < b < list.seq.records.len() ==> (#[trigger] list.seq.records[a] matches Some(p)
                ==> (#[trigger] list.seq.records[b] matches Some(q) && p.seq <= q.seq)),
        forall|a: int|
            0 <= a < list.seq.records.len() ==> (#[trigger] list.seq.records[a] matches Some(p)
                ==> p.seq > 0 && (list.seq.next_seq matches Some(next) ==> p.seq < next)),
        list.seq.next_seq matches Some(next) ==> next > 0,
    ensures
        list.wf(),
{
    let slots = list.seq.records;
    assert forall|i: int, j: int| 0 <= i <= j < slots.len() implies slot_seq(#[trigger] slots[i])
        <= slot_seq(#[trigger] slots[j]) by {}
}

/// A list that is in order has distinct keys, finds each node under its key, and has values in
/// the states that say so.
pub proof fn law_order_of_a_list<T, V>(list: ListView<T, V>, a: int, b: int)
    requires
        list.wf(),
        0 <= a < list.nodes.len(),
        0 <= b < list.nodes.len(),
    ensures
        a != b ==> list.nodes[a].key != list.nodes[b].key,
        list.nodes[a].value is Some <==> list.nodes[a].state == State::ValidNoWriteNeeded
            || list.nodes[a].state == State::NeedsWrite,
        has_key(list.nodes, list.nodes[a].key),
        list.node(list.nodes[a].key) == list.nodes[a],
{
    assert(list.nodes[a].wf());
    lemma_index_of(list.nodes, list.nodes[a].key, a);
    if a < b {
        assert(list.nodes[a].key != list.nodes[b].key);
    } else if b < a {
        assert(list.nodes[b].key != list.nodes[a].key);
    }
}

/// A value that is replaced is the new one from then on and needs a write, whatever was there
/// before and whatever else the list holds. Nothing else changes.
pub proof fn law_a_replaced_value_is_the_new_one<T, V>(
    list: ListView<T, V>,
    key: Seq<char>,
    at: int,
    t: T,
)
    requires
        list.wf(),
        0 <= at < list.nodes.len(),
        list.nodes[at].key == key,
    ensures
        ({
            let after = list.replaced(key, t);
            &&& after.nodes.len() == list.nodes.len()
            &&& after.nodes[at].value == Some(t)
            &&& after.nodes[at].state == State::NeedsWrite
            &&& after.nodes[at].key == key
            &&& after.nodes[at].vtable == list.nodes[at].vtable
            &&& after.node(key) == after.nodes[at]
            &&& forall|j: int|
                0 <= j < list.nodes.len() && j != at ==> #[trigger] after.nodes[j] == list.nodes[j]
            &&& after.seq == list.seq
            &&& after.id == list.id
            &&& after.needs_read == list.needs_read
            &&& after.needs_write == list.needs_write
            &&& after.wf()
        }),
{
    lemma_index_of(list.nodes, key, at);
    let after = list.replaced(key, t);
    assert forall|a: int, b: int| 0 <= a < b < after.nodes.len() implies (
    #[trigger] after.nodes[a]).key != (#[trigger] after.nodes[b]).key by {
        assert(list.nodes[a].key != list.nodes[b].key);
    }
    assert forall|a: int| 0 <= a < after.nodes.len() implies (#[trigger] after.nodes[a]).wf() by {
        assert(list.nodes[a].wf());
    }
    lemma_index_of(after.nodes, key, at);
}

/// Of two values that replace one another, the last one stays.
pub proof fn law_the_last_value_stays<T, V>(
    list: ListView<T, V>,
    key: Seq<char>,
    first: T,
    last: T,
)
    requires
        list.wf(),
        has_key(list.nodes, key),
    ensures
        list.replaced(key, first).replaced(key, last) == list.replaced(key, last),
{
    let at = index_of(list.nodes, key);
    law_a_replaced_value_is_the_new_one(list, key, at, first);
    law_a_replaced_value_is_the_new_one(list, key, at, last);
    law_a_replaced_value_is_the_new_one(list.replaced(key, first), key, at, last);
    let a = list.replaced(key, first).replaced(key, last);
    let b = list.replaced(key, last);
    assert(a.nodes =~= b.nodes) by {
        assert forall|j: int| 0 <= j < a.nodes.len() implies a.nodes[j] == b.nodes[j] by {
            if j != at {
                assert(list.replaced(key, first).nodes[j] == list.nodes[j]);
            }
        }
    }
}

/// Values under two keys can be replaced in either order.
pub proof fn law_values_do_not_disturb_each_other<T, V>(
    list: ListView<T, V>,
    a: Seq<char>,
    s: T,
    b: Seq<char>,
    t: T,
)
    requires
        list.wf(),
        has_key(list.nodes, a),
        has_key(list.nodes, b),
        a != b,
    ensures
        list.replaced(a, s).replaced(b, t) == list.replaced(b, t).replaced(a, s),
        list.replaced(a, s).node(b) == list.node(b),
{
    let i = index_of(list.nodes, a);
    let j = index_of(list.nodes, b);
    law_a_replaced_value_is_the_new_one(list, a, i, s);
    law_a_replaced_value_is_the_new_one(list, b, j, t);
    let la = list.replaced(a, s);
    let lb = list.replaced(b, t);
    assert(la.nodes[j] == list.nodes[j] && lb.nodes[i] == list.nodes[i]);
    law_a_replaced_value_is_the_new_one(la, b, j, t);
    law_a_replaced_value_is_the_new_one(lb, a, i, s);
    lemma_index_of(la.nodes, b, j);
    assert(la.replaced(b, t).nodes =~= lb.replaced(a, s).nodes) by {
        assert forall|k: int| 0 <= k < list.nodes.len() implies la.replaced(b, t).nodes[k]
            == lb.replaced(a, s).nodes[k] by {
            if k != i {
                assert(la.nodes[k] == list.nodes[k]);
            }
            if k != j {
                assert(lb.nodes[k] == list.nodes[k]);
            }
        }
    }
}

/// A node for which there was no data gets the default when it is handed out, and that needs a
/// write. A node that holds a value keeps it. No other node is touched either way.
pub proof fn law_a_default_stands_in_for_missing_data<T, V>(
    list: ListView<T, V>,
    key: Seq<char>,
    at: int,
    default: T,
)
    requires
        list.wf(),
        0 <= at < list.nodes.len(),
        list.nodes[at].key == key,
    ensures
        ({
            let after = list.attached(key, default);
            &&& list.nodes[at].state == State::NonResident ==> after.nodes[at].value == Some(
                default,
            ) && after.nodes[at].state == State::NeedsWrite && after.nodes[at].key == key
                && after.nodes[at].vtable == list.nodes[at].vtable
            &&& list.nodes[at].state != State::NonResident ==> after.nodes[at] == list.nodes[at]
            &&& after.nodes.len() == list.nodes.len()
            &&& forall|j: int|
                0 <= j < list.nodes.len() && j != at ==> #[trigger] after.nodes[j] == list.nodes[j]
            &&& after.seq == list.seq
            &&& after.id == list.id
            &&& after.needs_read == list.needs_read
            &&& after.needs_write == list.needs_write
        }),
{
    lemma_index_of(list.nodes, key, at);
    law_a_replaced_value_is_the_new_one(list, key, at, default);
}

/// A node that has just been linked waits for data and holds no value.
pub proof fn law_a_new_node_waits<T, V>(key: Seq<char>, vtable: V)
    ensures
        NodeView::<T, V>::fresh(key, vtable).state == State::Initial,
        NodeView::<T, V>::fresh(key, vtable).value is None,
        NodeView::<T, V>::fresh(key, vtable).key == key,
        NodeView::<T, V>::fresh(key, vtable).vtable == vtable,
{
}

/// A new list has no nodes and knows of no record.
pub proof fn law_a_new_list_knows_nothing<T, V>(id: usize, kept: nat)
    ensures
        ({
            let list = ListView::<T, V>::empty(id, kept);
            &&& list.nodes.len() == 0
            &&& list.seq.next_seq is None
            &&& list.seq.records.len() == kept
            &&& forall|i: int| 0 <= i < kept ==> #[trigger] list.seq.records[i] is None
            &&& !list.seq.needs_gc
            &&& !list.needs_read
            &&& !list.needs_write
            &&& list.id == id
        }),
{
}

/// After a write that has ended well each value is what it was and needs no write, and a node
/// without a value is what it was.
pub proof fn law_a_write_settles_every_value<T, V: VTable<T>>(
    list: ListView<T, V>,
    r: RecordView,
    i: int,
)
    requires
        list.wf(),
        0 <= i < list.nodes.len(),
    ensures
        ({
            let before = list.nodes[i];
            let after = list.after_write(r).nodes[i];
            &&& list.after_write(r).nodes.len() == list.nodes.len()
            &&& after.key == before.key
            &&& after.vtable == before.vtable
            &&& after.value == before.value
            &&& before.value is Some ==> after.state == State::ValidNoWriteNeeded
            &&& before.value is None ==> after.state == before.state
            &&& list.after_write(r).seq == list.seq.with(r)
            &&& list.after_write(r).id == list.id
            &&& list.after_write(r).needs_read == list.needs_read
            &&& list.after_write(r).needs_write == list.needs_write
        }),
{
    assert(list.nodes[i].wf());
}

/// A write that has failed, a collection, and a reset of what is known touch no node. After a
/// failed write the same records are known, and the next number is the one after it; after a
/// reset none is.
pub proof fn law_nodes_survive<T, V: VTable<T>>(
    list: ListView<T, V>,
    items: Seq<crate::storage::ItemView>,
)
    requires
        list.wf(),
    ensures
        list.after_failed_write().nodes == list.nodes,
        list.after_failed_write().seq.records == list.seq.records,
        list.after_failed_write().seq.needs_gc == list.seq.needs_gc,
        list.seq.next_seq matches Some(next) ==> {
            &&& next < u32::MAX ==> list.after_failed_write().seq.next_seq == Some((next + 1) as u32)
            &&& next == u32::MAX ==> list.after_failed_write().seq.next_seq is None
        },
        list.after_garbage(items).nodes == list.nodes,
        !list.after_garbage(items).seq.needs_gc,
        list.forgotten().nodes == list.nodes,
        list.forgotten().seq.next_seq is None,
        !list.forgotten().seq.needs_gc,
        list.forgotten().seq.records.len() == list.seq.records.len(),
        forall|i: int|
            0 <= i < list.seq.records.len() ==> #[trigger] list.forgotten().seq.records[i] is None,
        list.after_failed_write().id == list.id && list.after_garbage(items).id == list.id
            && list.forgotten().id == list.id,
        list.after_failed_write().needs_read == list.needs_read && list.after_garbage(
            items,
        ).needs_read == list.needs_read && list.forgotten().needs_read == list.needs_read,
        list.after_failed_write().needs_write == list.needs_write && list.after_garbage(
            items,
        ).needs_write == list.needs_write && list.forgotten().needs_write == list.needs_write,
{
}

/// A write is refused exactly if the storage has not been scanned, has to be collected, or a
/// node has not been read.
pub proof fn law_when_a_write_is_refused<T, V: VTable<T>>(list: ListView<T, V>, i: int)
    ensures
        list.seq.next_seq is None ==> list.refused() == Some(Error::NeedsFirstRead),
        list.seq.next_seq is Some && list.seq.needs_gc ==> list.refused() == Some(
            Error::NeedsGarbageCollect,
        ),
        list.seq.next_seq is Some && !list.seq.needs_gc && 0 <= i < list.nodes.len()
            && list.nodes[i].state == State::Initial ==> list.refused() == Some(
            Error::NeedsFirstRead,
        ),
        list.seq.next_seq is Some && !list.seq.needs_gc && (forall|j: int|
            0 <= j < list.nodes.len() ==> (#[trigger] list.nodes[j]).state != State::Initial)
            ==> list.refused() is None,
{
}

/// There is something to write as soon as one value, of whichever node, needs a write, and
/// where there are values and no record. There is nothing to write where no value needs a
/// write and a record is known, or where there is no value.
pub proof fn law_when_there_is_something_to_write<T, V: VTable<T>>(list: ListView<T, V>, i: int)
    requires
        list.wf(),
    ensures
        0 <= i < list.nodes.len() && list.nodes[i].state == State::NeedsWrite ==> list.unwritten(),
        0 <= i < list.nodes.len() && list.nodes[i].value is Some && list.seq.records[
            list.seq.records.len() - 1
        ] is None ==> list.unwritten(),
        (forall|j: int|
            0 <= j < list.nodes.len() ==> (#[trigger] list.nodes[j]).state != State::NeedsWrite)
            && list.seq.records[list.seq.records.len() - 1] is Some ==> !list.unwritten(),
        (forall|j: int| 0 <= j < list.nodes.len() ==> (#[trigger] list.nodes[j]).value is None)
            ==> !list.unwritten(),
{
    assert forall|j: int| 0 <= j < list.nodes.len() implies (#[trigger] list.nodes[j]).wf() by {}
}

} // verus!
