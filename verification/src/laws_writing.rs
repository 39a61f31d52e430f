//! Laws of writing, down to the elements: what a record is made of, and what a write leaves.
use crate::cbor;
use crate::crc32::crc32_of;
use crate::elem::ElemView;
use crate::laws_history::lemma_reads_back_its_own;
use crate::laws_list::law_read_gives_back_what_was_written;
use crate::laws_values::{
    law_a_write_settles_every_value, law_when_there_is_something_to_write,
};
use crate::model::{appended, appended_in_part, lemma_unwritten_has_data, ListView};
use crate::record::{data_of, is_good_record, RecordView};
use crate::seq_state::{slot_seq, SeqStateView};
use crate::storage::{at_most_one_more, perhaps_pushed, perhaps_torn, ItemView};
use crate::storage_node::{lemma_index_of, NodeView, State, VTable};
use crate::verify_record::{lemma_data_end_bounds, lemma_first_start};
use crate::write_record::{all_fit, all_key_vals, data_elems, record_elems};
use vstd::prelude::*;
use vstd::utf8::encode_utf8;

verus! {

/// The nodes that hold a value, in their order.
spec fn valued<T, V>(nodes: Seq<NodeView<T, V>>) -> Seq<NodeView<T, V>> {
    nodes.filter(|node: NodeView<T, V>| node.value is Some)
}

proof fn lemma_data_elems_of_valued<T, V: VTable<T>>(nodes: Seq<NodeView<T, V>>)
    requires
        forall|i: int| 0 <= i < nodes.len() ==> (#[trigger] nodes[i]).wf(),
    ensures
        data_elems(nodes) == valued(nodes).map_values(
            |node: NodeView<T, V>|
                ElemView::Data {
                    bytes: seq![1u8] + cbor::text(node.key) + node.vtable.encoded(node.value->0)->0,
                },
        ),
        all_key_vals(nodes) == valued(nodes).map_values(
            |node: NodeView<T, V>|
                cbor::text(node.key) + node.vtable.encoded(node.value->0)->0,
        ).flatten_alt(),
    decreases nodes.len(),
{
    reveal(Seq::filter);
    let f = |node: NodeView<T, V>|
        ElemView::Data {
            bytes: seq![1u8] + cbor::text(node.key) + node.vtable.encoded(node.value->0)->0,
        };
    let g = |node: NodeView<T, V>| cbor::text(node.key) + node.vtable.encoded(node.value->0)->0;
    if nodes.len() == 0 {
        assert(valued(nodes).map_values(f) =~= Seq::empty());
        assert(valued(nodes).map_values(g) =~= Seq::empty());
    } else {
        let front = nodes.drop_last();
        let last = nodes.last();
        assert(nodes[nodes.len() - 1] == last);
        assert forall|i: int| 0 <= i < front.len() implies (#[trigger] front[i]).wf() by {
            assert(front[i] == nodes[i]);
        }
        lemma_data_elems_of_valued(front);
        if last.value is Some {
            assert(valued(nodes) == valued(front).push(last));
            assert(valued(nodes).map_values(f) =~= valued(front).map_values(f).push(f(last)));
            assert(valued(nodes).map_values(g) =~= valued(front).map_values(g).push(g(last)));
            assert(valued(front).map_values(g).push(g(last)).drop_last() =~= valued(
                front,
            ).map_values(g));
            assert(last.data_elem() == f(last)) by {
                assert(seq![1u8] + (cbor::text(last.key) + last.vtable.encoded(last.value->0)->0)
                    =~= seq![1u8] + cbor::text(last.key) + last.vtable.encoded(last.value->0)->0);
            }
        } else {
            assert(valued(nodes) == valued(front));
        }
    }
}

/// The record of a list is made of all its values and nothing else: a Start element with the
/// number, for each node that holds a value, in the order of the nodes, a data element with a
/// header, the key and the encoded value, and an End element with the number and the checksum
/// of keys and values.
pub proof fn law_what_a_record_is_made_of<T, V: VTable<T>>(nodes: Seq<NodeView<T, V>>, seq: u32)
    requires
        forall|i: int|
            0 <= i < nodes.len() ==> ((#[trigger] nodes[i]).value is Some <==> nodes[i].state
                == State::ValidNoWriteNeeded || nodes[i].state == State::NeedsWrite),
    ensures
        ({
            let values = nodes.filter(|node: NodeView<T, V>| node.value is Some);
            let key_vals = values.map_values(
                |node: NodeView<T, V>|
                    cbor::text(node.key) + node.vtable.encoded(node.value->0)->0,
            );
            record_elems(nodes, seq) == seq![ElemView::Start { seq }] + values.map_values(
                |node: NodeView<T, V>|
                    ElemView::Data {
                        bytes: seq![1u8] + cbor::text(node.key) + node.vtable.encoded(
                            node.value->0,
                        )->0,
                    },
            ) + seq![ElemView::End { seq, crc: crc32_of(key_vals.flatten_alt()) }]
        }),
{
    assert forall|i: int| 0 <= i < nodes.len() implies (#[trigger] nodes[i]).wf() by {}
    lemma_data_elems_of_valued(nodes);
}

/// Elements that have been appended stand behind what was there before, in their order, and
/// nothing else has changed.
pub proof fn law_what_it_means_to_append(
    before: Seq<ItemView>,
    after: Seq<ItemView>,
    elems: Seq<ElemView>,
)
    ensures
        appended(before, after, elems) <==> {
            &&& before.is_prefix_of(after)
            &&& after.skip(before.len() as int).map_values(|item: ItemView| item.elem)
                == elems.map_values(|elem: ElemView| Some(elem))
        },
{
    let f = |item: ItemView| item.elem;
    let g = |elem: ElemView| Some(elem);
    let n = before.len() as int;
    if appended(before, after, elems) {
        assert(before =~= after.subrange(0, n));
        assert(after.skip(n).map_values(f) =~= elems.map_values(g)) by {
            assert forall|i: int| 0 <= i < elems.len() implies after.skip(n).map_values(f)[i]
                == elems.map_values(g)[i] by {
                assert(after[n + i].elem == Some(elems[i]));
            }
        }
    }
    if before.is_prefix_of(after) && after.skip(n).map_values(f) == elems.map_values(g) {
        assert(after.skip(n).map_values(f).len() == elems.map_values(g).len());
        assert forall|i: int| 0 <= i < before.len() implies #[trigger] after[i] == before[i] by {
            assert(before[i] == after.subrange(0, n)[i]);
        }
        assert forall|i: int| n <= i < after.len() implies (#[trigger] after[i]).elem == Some(
            elems[i - n],
        ) by {
            assert(after.skip(n).map_values(f)[i - n] == elems.map_values(g)[i - n]);
        }
    }
}

/// All values fit exactly if each of them can be encoded, and takes, with its key and a header,
/// no more bytes than there are.
pub proof fn law_what_fits<T, V: VTable<T>>(nodes: Seq<NodeView<T, V>>, capacity: nat)
    requires
        forall|i: int|
            0 <= i < nodes.len() ==> ((#[trigger] nodes[i]).value is Some <==> nodes[i].state
                == State::ValidNoWriteNeeded || nodes[i].state == State::NeedsWrite),
    ensures
        all_fit(nodes, capacity) <==> forall|i: int|
            0 <= i < nodes.len() && (#[trigger] nodes[i]).value is Some ==> (
            nodes[i].vtable.encoded(nodes[i].value->0) matches Some(bytes) && 1 + cbor::text(
                nodes[i].key,
            ).len() + bytes.len() <= capacity),
{
}

/// What a read-back accepts is a record with the number that was to be written, as many data
/// elements as there are values, and the checksum of these values, which is also the checksum of
/// what has been read.
pub proof fn law_what_a_read_back_accepts<T, V: VTable<T>>(
    list: ListView<T, V>,
    items: Seq<ItemView>,
    k: int,
)
    requires
        list.wf(),
        list.seq.next_seq is Some,
        list.read_back(items) is Some,
    ensures
        ({
            let r = list.read_back(items)->0;
            let seq = list.seq.next_seq->0;
            let values = list.nodes.filter(|node: NodeView<T, V>| node.value is Some);
            let crc = crc32_of(
                values.map_values(
                    |node: NodeView<T, V>|
                        cbor::text(node.key) + node.vtable.encoded(node.value->0)->0,
                ).flatten_alt(),
            );
            &&& r.seq == seq
            &&& 0 <= r.start < r.end < items.len()
            &&& items[r.start].elem == Some(ElemView::Start { seq })
            &&& items[r.end].elem == Some(ElemView::End { seq, crc })
            &&& r.end - r.start - 1 == values.len()
            &&& values.len() > 0
            &&& crc32_of(data_of(items.subrange(r.start + 1, r.end))) == crc
            &&& r.start < k < r.end ==> (items[k].elem matches Some(ElemView::Data { .. }))
            &&& 0 <= k < r.start ==> items[k].elem != Some(ElemView::Start { seq })
        }),
{
    let r = list.read_back(items)->0;
    assert forall|i: int| 0 <= i < list.nodes.len() implies (#[trigger] list.nodes[i]).wf() by {}
    lemma_data_elems_of_valued(list.nodes);
    lemma_first_start(items, list.seq.next_seq->0);
    lemma_data_end_bounds(items, r.start + 1);
    if r.start < k < r.end {
        assert(crate::record::is_data(items[k]));
    }
}

/// A value that needs a write, of whichever node, is written: where the storage has been scanned
/// and collected and all nodes have been read, a write that ends well has put a new record
/// behind what was there, with a data element for this value, and the value needs no write any
/// more. A list that reads the storage for the first time gets it, where no good record had the
/// number of the new one or a higher one.
pub proof fn law_every_change_is_written<T, V: VTable<T>>(
    list: ListView<T, V>,
    items: Seq<ItemView>,
    after: ListView<T, V>,
    left: Seq<ItemView>,
    i: int,
    reader: ListView<T, V>,
    at: int,
)
    requires
        list.wf(),
        list.seq.next_seq is Some,
        !list.seq.needs_gc,
        forall|j: int|
            0 <= j < list.nodes.len() ==> (#[trigger] list.nodes[j]).state != State::Initial,
        0 <= i < list.nodes.len(),
        list.nodes[i].state == State::NeedsWrite,
        list.write_succeeds(items, after, left),
        // a new list with a node for the same key
        reader.wf(),
        reader.seq.next_seq is None,
        !reader.seq.needs_gc,
        forall|k: int|
            0 <= k < reader.seq.records.len() ==> #[trigger] reader.seq.records[k] is None,
        0 <= at < reader.nodes.len(),
        reader.nodes[at].key == list.nodes[i].key,
        reader.nodes[at].state == State::Initial,
        // no good record has the number of the new one or a higher one
        forall|r: RecordView| #[trigger]
            is_good_record(items, r) ==> r.seq < list.seq.next_seq->0,
        forall|j: int|
            0 <= j < list.nodes.len() ==> encode_utf8((#[trigger] list.nodes[j]).key).len()
                < 0x1_0000_0000_0000_0000,
    ensures
        ({
            let seq = list.seq.next_seq->0;
            let node = list.nodes[i];
            let bytes = node.vtable.encoded(node.value->0)->0;
            let got = reader.after_read(left).nodes[at];
            &&& items.is_prefix_of(left)
            &&& left.len() >= items.len() + 3
            &&& left[items.len() as int].elem == Some(ElemView::Start { seq })
            &&& left[left.len() - 1].elem matches Some(ElemView::End { seq: last, .. }) && last
                == seq
            &&& exists|k: int|
                items.len() < k < left.len() && (#[trigger] left[k]).elem == Some(
                    ElemView::Data { bytes: seq![1u8] + cbor::text(node.key) + bytes },
                )
            &&& after.nodes.len() == list.nodes.len()
            &&& after.nodes[i].value == node.value
            &&& after.nodes[i].state == State::ValidNoWriteNeeded
            &&& reader.nodes[at].vtable.decoded(bytes) matches Some(t) ==> got.value == Some(t)
                && got.state == State::ValidNoWriteNeeded
        }),
{
    let seq = list.seq.next_seq->0;
    let node = list.nodes[i];
    let n = items.len() as int;
    law_when_there_is_something_to_write(list, i);
    assert(list.unwritten());
    law_what_it_means_to_append(items, left, list.next_record());
    assert forall|j: int| 0 <= j < list.nodes.len() implies (#[trigger] list.nodes[j]).wf() by {}
    lemma_data_elems_of_valued(list.nodes);
    lemma_unwritten_has_data(list);
    let data = data_elems(list.nodes);
    let elem = ElemView::Data {
        bytes: seq![1u8] + cbor::text(node.key) + node.vtable.encoded(node.value->0)->0,
    };
    let pred = |node: NodeView<T, V>| node.value is Some;
    list.nodes.lemma_filter_contains(pred, i);
    let m = choose|m: int| 0 <= m < valued(list.nodes).len() && valued(list.nodes)[m] == node;
    assert(data[m] == elem);
    let record = list.next_record();
    assert(record[m + 1] == elem);
    assert(left[n + m + 1].elem == Some(record[m + 1]));
    assert(left[n].elem == Some(record[0]));
    assert(left[left.len() - 1].elem == Some(record[record.len() - 1]));
    law_a_write_settles_every_value(list, list.read_back(left)->0, i);
    // what a new list gets
    assert(reader.seq.records =~= SeqStateView::unscanned(reader.seq.records.len()).records);
    lemma_index_of(list.nodes, node.key, i);
    lemma_index_of(reader.nodes, node.key, at);
    law_read_gives_back_what_was_written(list, items, left, reader, node.key);
    let nodes = reader.after_read(left).nodes;
    assert forall|a: int, b: int| 0 <= a < b < nodes.len() implies (#[trigger] nodes[a]).key != (
    #[trigger] nodes[b]).key by {
        assert(reader.nodes[a].key != reader.nodes[b].key);
    }
    lemma_index_of(nodes, node.key, at);
}

/// After a write that has ended well no value needs a write, whatever the list held before.
pub proof fn law_nothing_needs_a_write_after_a_write<T, V: VTable<T>>(
    list: ListView<T, V>,
    items: Seq<ItemView>,
    after: ListView<T, V>,
    left: Seq<ItemView>,
    i: int,
)
    requires
        list.wf(),
        list.write_succeeds(items, after, left),
        0 <= i < list.nodes.len(),
    ensures
        after.nodes.len() == list.nodes.len(),
        after.nodes[i].state != State::NeedsWrite,
        after.nodes[i].value == list.nodes[i].value,
        after.nodes[i].key == list.nodes[i].key,
{
    law_when_there_is_something_to_write(list, i);
    if list.unwritten() {
        law_a_write_settles_every_value(list, list.read_back(left)->0, i);
    }
    assert(list.nodes[i].wf());
}

/// A write goes over the whole storage to read the new record back, where no good record had
/// its number or a higher one: the record is the last thing in the storage, and is known as the
/// newest from then on. Garbage is due, and the next number is the one after it.
pub proof fn law_the_new_record_is_the_newest<T, V: VTable<T>>(
    list: ListView<T, V>,
    items: Seq<ItemView>,
    after: ListView<T, V>,
    left: Seq<ItemView>,
    i: int,
)
    requires
        list.wf(),
        list.seq.next_seq is Some,
        list.write_succeeds(items, after, left),
        0 <= i < list.nodes.len(),
        list.nodes[i].state == State::NeedsWrite,
        forall|r: RecordView| #[trigger]
            is_good_record(items, r) ==> r.seq < list.seq.next_seq->0,
    ensures
        ({
            let seq = list.seq.next_seq->0;
            let r = RecordView { seq, start: items.len() as int, end: left.len() - 1 };
            &&& list.read_back(left) == Some(r)
            &&& left.take(r.end + 1) == left
            &&& after.seq.records.len() == list.seq.records.len()
            &&& after.seq.records[after.seq.records.len() - 1] == Some(r)
            &&& after.seq.needs_gc
            &&& seq < u32::MAX ==> after.seq.next_seq == Some((seq + 1) as u32)
            &&& seq == u32::MAX ==> after.seq.next_seq is None
        }),
{
    law_when_there_is_something_to_write(list, i);
    assert(list.unwritten());
    lemma_reads_back_its_own(list, items, left);
    let n = list.seq.records.len();
    assert(slot_seq(list.seq.records[0]) < list.seq.next_seq->0);
    crate::seq_state::lemma_with_wf(
        list.seq,
        RecordView { seq: list.seq.next_seq->0, start: items.len() as int, end: left.len() - 1 },
    );
    assert(left.take(left.len() as int) =~= left);
}

/// A push that has failed leaves what was there, and perhaps one item more: the element, or
/// something that does not decode.
pub proof fn law_what_a_failed_push_leaves(
    before: Seq<ItemView>,
    after: Seq<ItemView>,
    elem: ElemView,
)
    ensures
        perhaps_pushed(before, after, elem) <==> before.is_prefix_of(after) && (after.len()
            == before.len() || (after.len() == before.len() + 1 && (after[before.len() as int].elem
            is None || after[before.len() as int].elem == Some(elem)))),
        at_most_one_more(before, after) <==> before.is_prefix_of(after) && after.len()
            <= before.len() + 1,
{
    let n = before.len() as int;
    if before.is_prefix_of(after) {
        assert(before =~= after.subrange(0, n));
        if after.len() == n {
            assert(after =~= before);
        } else if after.len() == n + 1 {
            assert(after.drop_last() =~= before);
        }
    }
    if at_most_one_more(before, after) {
        assert(before =~= after.subrange(0, n));
    }
}

/// A write that has failed leaves what was there, then some of the elements of its record, in
/// their order from the first, and perhaps something behind them that does not decode.
pub proof fn law_what_a_failed_write_leaves(
    before: Seq<ItemView>,
    after: Seq<ItemView>,
    elems: Seq<ElemView>,
    i: int,
)
    requires
        appended_in_part(before, after, elems),
    ensures
        before.is_prefix_of(after),
        after.len() <= before.len() + elems.len(),
        before.len() <= i < after.len() ==> after[i].elem == Some(elems[i - before.len()]) || (i
            == after.len() - 1 && after[i].elem is None),
{
    let n = before.len() as int;
    let (k, mid) = choose|k: int, mid: Seq<ItemView>|
        0 <= k <= elems.len() && appended(before, mid, #[trigger] elems.take(k))
            && #[trigger] perhaps_torn(mid, after) && (k == elems.len() ==> after == mid);
    assert forall|j: int| 0 <= j < mid.len() implies after[j] == mid[j] by {
        if after != mid {
            assert(after.drop_last()[j] == after[j]);
        }
    }
    assert(before =~= after.subrange(0, n)) by {
        assert forall|j: int| 0 <= j < n implies before[j] == after[j] by {
            assert(mid[j] == before[j]);
        }
    }
    if n <= i < mid.len() {
        assert(mid[i].elem == Some(elems.take(k)[i - n]));
    }
}

} // verus!
