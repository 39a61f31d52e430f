//! Laws of write records: what appending, interrupting and corrupting one does to the others.
use crate::cbor;
use crate::consts::V0_DATA;
use crate::crc32::crc32_of;
use crate::elem::{key_val_of, kv_of, ElemView};
use crate::extract::{data_end, extractable, extracted};
use crate::model::appended;
use crate::record::{
    data_of, good_records, is_data, is_good_record, lemma_open_start_unique, record_closed_by_last,
    RecordView,
};
use crate::storage::ItemView;
use crate::storage_node::{
    distinct_keys, first_body, has_key, index_of, lemma_index_of, NodeView, VTable,
};
use crate::verify_record::{first_start, lemma_data_end, lemma_first_start, verified};
use crate::write_record::{all_key_vals, data_elems, record_elems};
use vstd::prelude::*;
use vstd::utf8::encode_utf8;

verus! {

/// Items that are the given data elements have the keys and values of the nodes.
proof fn lemma_data_of_nodes<T, V: VTable<T>>(items: Seq<ItemView>, nodes: Seq<NodeView<T, V>>)
    requires
        items.len() == data_elems(nodes).len(),
        forall|i: int|
            0 <= i < items.len() ==> (#[trigger] items[i]).elem == Some(data_elems(nodes)[i]),
    ensures
        data_of(items) == all_key_vals(nodes),
        forall|i: int| 0 <= i < items.len() ==> is_data(#[trigger] items[i]),
    decreases nodes.len(),
{
    if nodes.len() > 0 {
        let front = nodes.drop_last();
        let last = nodes.last();
        if last.state.has_value() {
            let elems = data_elems(front);
            assert forall|i: int| 0 <= i < items.len() - 1 implies (
            #[trigger] items.drop_last()[i]).elem == Some(elems[i]) by {
                assert(items[i].elem == Some(data_elems(nodes)[i]));
            }
            lemma_data_of_nodes(items.drop_last(), front);
            assert(items.last().elem == Some(last.data_elem()));
            assert(key_val_of(seq![V0_DATA] + last.key_val()) =~= last.key_val());
            assert forall|i: int| 0 <= i < items.len() implies is_data(#[trigger] items[i]) by {
                if i < items.len() - 1 {
                    assert(is_data(items.drop_last()[i]));
                }
            }
        } else {
            lemma_data_of_nodes(items, front);
        }
    } else {
        assert(items =~= Seq::<ItemView>::empty());
    }
}

/// What has been appended is a record: its shape.
proof fn lemma_appended_shape<T, V: VTable<T>>(
    before: Seq<ItemView>,
    after: Seq<ItemView>,
    nodes: Seq<NodeView<T, V>>,
    seq: u32,
)
    requires
        seq != 0,
        appended(before, after, record_elems(nodes, seq)),
    ensures
        ({
            let start = before.len() as int;
            let end = after.len() - 1;
            &&& start < end
            &&& after[start].elem == Some(ElemView::Start { seq })
            &&& forall|k: int| start < k < end ==> is_data(#[trigger] after[k])
            &&& after[end].elem == Some(
                ElemView::End { seq, crc: crc32_of(all_key_vals(nodes)) },
            )
            &&& data_of(after.subrange(start + 1, end)) == all_key_vals(nodes)
            &&& end - start - 1 == data_elems(nodes).len()
            &&& data_elems(nodes).len() > 0 ==> is_good_record(
                after,
                RecordView { seq, start, end },
            )
        }),
{
    let start = before.len() as int;
    let end = after.len() - 1;
    let elems = record_elems(nodes, seq);
    let data = data_elems(nodes);
    assert(elems.len() == data.len() + 2);
    assert(elems[0] == (ElemView::Start { seq }));
    assert(after[start].elem == Some(elems[0]));
    assert(after[end].elem == Some(elems[end - start]));
    let inner = after.subrange(start + 1, end);
    assert forall|i: int| 0 <= i < inner.len() implies (#[trigger] inner[i]).elem == Some(
        data[i],
    ) by {
        assert(inner[i] == after[start + 1 + i]);
        assert(elems[i + 1] == data[i]);
    }
    lemma_data_of_nodes(inner, nodes);
    assert forall|k: int| start < k < end implies is_data(#[trigger] after[k]) by {
        assert(after[k] == inner[k - start - 1]);
        assert(is_data(inner[k - start - 1]));
    }
}

/// A write that was interrupted, so that only the first of its elements are there, has no
/// effect: the good records are those from before.
pub proof fn law_interrupted_write_is_ignored<T, V: VTable<T>>(
    before: Seq<ItemView>,
    after: Seq<ItemView>,
    nodes: Seq<NodeView<T, V>>,
    seq: u32,
    n: int,
)
    requires
        0 <= n < record_elems(nodes, seq).len(),
        appended(before, after, record_elems(nodes, seq).take(n)),
    ensures
        good_records(after) == good_records(before),
    decreases n,
{
    let elems = record_elems(nodes, seq);
    if n == 0 {
        assert(after =~= before);
    } else {
        let front = after.drop_last();
        assert forall|i: int| before.len() <= i < front.len() implies (
        #[trigger] front[i]).elem == Some(elems.take(n - 1)[i - before.len()]) by {
            assert(after[i].elem == Some(elems.take(n)[i - before.len()]));
        }
        law_interrupted_write_is_ignored(before, front, nodes, seq, n - 1);
        assert(after.last().elem == Some(elems.take(n)[n - 1]));
        assert(elems[n - 1] is Start || elems[n - 1] is Data) by {
            if n > 1 {
                assert(elems[n - 1] == data_elems(nodes)[n - 2]);
                lemma_all_data(nodes, n - 2);
            }
        }
        assert(record_closed_by_last(after) is None);
    }
}

/// A write that was interrupted inside an element, so that behind the first of its elements
/// there is something that does not decode, has no effect either.
pub proof fn law_torn_write_is_ignored<T, V: VTable<T>>(
    before: Seq<ItemView>,
    after: Seq<ItemView>,
    torn: Seq<ItemView>,
    nodes: Seq<NodeView<T, V>>,
    seq: u32,
    n: int,
)
    requires
        0 <= n < record_elems(nodes, seq).len(),
        appended(before, after, record_elems(nodes, seq).take(n)),
        forall|i: int| 0 <= i < torn.len() ==> (#[trigger] torn[i]).elem is None,
    ensures
        good_records(after + torn) == good_records(before),
    decreases torn.len(),
{
    if torn.len() == 0 {
        law_interrupted_write_is_ignored(before, after, nodes, seq, n);
        assert(after + torn =~= after);
    } else {
        law_torn_write_is_ignored(before, after, torn.drop_last(), nodes, seq, n);
        assert((after + torn).drop_last() =~= after + torn.drop_last());
        assert((after + torn).last() == torn[torn.len() - 1]);
    }
}

/// The data elements are data elements.
pub proof fn lemma_all_data<T, V: VTable<T>>(nodes: Seq<NodeView<T, V>>, i: int)
    requires
        0 <= i < data_elems(nodes).len(),
    ensures
        data_elems(nodes)[i] is Data,
    decreases nodes.len(),
{
    let front = nodes.drop_last();
    if i < data_elems(front).len() {
        lemma_all_data(front, i);
    }
}

/// A complete write adds one good record behind those from before, and changes none of them.
pub proof fn law_complete_write_is_found<T, V: VTable<T>>(
    before: Seq<ItemView>,
    after: Seq<ItemView>,
    nodes: Seq<NodeView<T, V>>,
    seq: u32,
)
    requires
        seq != 0,
        data_elems(nodes).len() > 0,
        appended(before, after, record_elems(nodes, seq)),
    ensures
        good_records(after) == good_records(before).push(
            RecordView { seq, start: before.len() as int, end: after.len() - 1 },
        ),
{
    let elems = record_elems(nodes, seq);
    let n = elems.len() - 1;
    let front = after.drop_last();
    let start = before.len() as int;
    assert forall|i: int| before.len() <= i < front.len() implies (#[trigger] front[i]).elem
        == Some(elems.take(n)[i - before.len()]) by {
        assert(after[i].elem == Some(elems[i - before.len()]));
    }
    law_interrupted_write_is_ignored(before, front, nodes, seq, n);
    lemma_appended_shape(before, after, nodes, seq);
    assert forall|k: int| start < k < front.len() implies is_data(#[trigger] front[k]) by {
        assert(is_data(after[k]));
    }
    lemma_open_start_unique(front, start);
}

/// Where a record has been written completely, and no Start element before it has its
/// number, the read-back finds it.
pub proof fn law_complete_write_is_read_back<T, V: VTable<T>>(
    before: Seq<ItemView>,
    after: Seq<ItemView>,
    nodes: Seq<NodeView<T, V>>,
    seq: u32,
)
    requires
        seq != 0,
        data_elems(nodes).len() > 0,
        appended(before, after, record_elems(nodes, seq)),
        first_start(before, seq) is None,
    ensures
        verified(after, seq, crc32_of(all_key_vals(nodes)), data_elems(nodes).len()) == Some(
            RecordView { seq, start: before.len() as int, end: after.len() - 1 },
        ),
{
    let start = before.len() as int;
    let end = after.len() - 1;
    lemma_appended_shape(before, after, nodes, seq);
    lemma_first_start(before, seq);
    lemma_first_start(after, seq);
    assert(after[start].elem == Some(ElemView::Start { seq }));
    let at = first_start(after, seq)->0;
    assert(at == start) by {
        if at < start {
            assert(after[at] == before[at]);
        }
    }
    lemma_data_end(after, start + 1, end);
}

/// An item that decays, or is changed in any other way, touches no record but the one that
/// it lies in.
pub proof fn law_corruption_is_local(
    items: Seq<ItemView>,
    at: int,
    item: ItemView,
    r: RecordView,
)
    requires
        0 <= at < items.len(),
        !(r.start <= at <= r.end),
    ensures
        is_good_record(items.update(at, item), r) <==> is_good_record(items, r),
        is_good_record(items, r) ==> extracted(items.update(at, item), r) == extracted(items, r),
{
    let other = items.update(at, item);
    if 0 <= r.start < r.end < items.len() {
        assert(other.subrange(r.start + 1, r.end) =~= items.subrange(r.start + 1, r.end));
        if is_good_record(items, r) {
            assert forall|k: int| r.start < k < r.end implies is_data(#[trigger] other[k]) by {
                assert(is_data(items[k]));
            }
            law_good_record_is_extractable(items, r);
            law_good_record_is_extractable(other, r);
        }
        if is_good_record(other, r) {
            assert forall|k: int| r.start < k < r.end implies is_data(#[trigger] items[k]) by {
                assert(is_data(other[k]));
            }
        }
    }
}

/// A good record can be extracted, and what is extracted is the data between its ends.
pub proof fn law_good_record_is_extractable(items: Seq<ItemView>, r: RecordView)
    requires
        is_good_record(items, r),
    ensures
        extractable(items, r),
        data_end(items, r.start + 1) == r.end,
        extracted(items, r) == items.subrange(r.start + 1, r.end),
{
    lemma_data_end(items, r.start + 1, r.end);
}

/// The body that the data elements for nodes hold for a key is the encoded value of the node
/// with that key.
proof fn lemma_first_body_of_nodes<T, V: VTable<T>>(
    items: Seq<ItemView>,
    nodes: Seq<NodeView<T, V>>,
    key: Seq<char>,
)
    requires
        distinct_keys(nodes),
        items.len() == data_elems(nodes).len(),
        forall|i: int|
            0 <= i < items.len() ==> (#[trigger] items[i]).elem == Some(data_elems(nodes)[i]),
        forall|i: int|
            0 <= i < nodes.len() ==> encode_utf8((#[trigger] nodes[i]).key).len()
                < 0x1_0000_0000_0000_0000,
    ensures
        ({
            let node = nodes[index_of(nodes, key)];
            first_body(items, key) == (if has_key(nodes, key) && node.state.has_value() {
                Some(node.vtable.encoded(node.value->0)->0)
            } else {
                None
            })
        }),
    decreases nodes.len(),
{
    if nodes.len() > 0 {
        let front = nodes.drop_last();
        let last = nodes.last();
        assert forall|i: int, j: int| 0 <= i < j < front.len() implies (#[trigger] front[i]).key
            != (#[trigger] front[j]).key by {
            assert(nodes[i].key != nodes[j].key);
        }
        assert forall|i: int| 0 <= i < front.len() implies encode_utf8(
            (#[trigger] front[i]).key,
        ).len() < 0x1_0000_0000_0000_0000 by {
            assert(front[i] == nodes[i]);
        }
        // where the key is
        if has_key(front, key) {
            let i = index_of(front, key);
            assert(nodes[i].key == key);
            lemma_index_of(nodes, key, i);
        }
        if last.key == key {
            lemma_index_of(nodes, key, nodes.len() - 1);
            if has_key(front, key) {
                let i = index_of(front, key);
                assert(nodes[i].key != nodes[nodes.len() - 1].key);
            }
        } else if has_key(nodes, key) {
            let i = index_of(nodes, key);
            assert(front[i].key == key);
        }
        if last.state.has_value() {
            let elems = data_elems(front);
            assert forall|i: int| 0 <= i < items.len() - 1 implies (
            #[trigger] items.drop_last()[i]).elem == Some(elems[i]) by {
                assert(items[i].elem == Some(data_elems(nodes)[i]));
            }
            lemma_first_body_of_nodes(items.drop_last(), front, key);
            let enc = last.vtable.encoded(last.value->0)->0;
            assert(items.last().elem == Some(last.data_elem()));
            assert(key_val_of(seq![V0_DATA] + last.key_val()) =~= last.key_val());
            assert(nodes[nodes.len() - 1] == last);
            cbor::lemma_text_round_trip(last.key, enc);
            assert(kv_of(last.key_val()) == Some((last.key, enc)));
        } else {
            lemma_first_body_of_nodes(items, front, key);
        }
    } else {
        assert(items =~= Seq::<ItemView>::empty());
    }
}

/// What the extraction of a written record holds for a key is the encoded value of the node
/// with that key, or nothing, where there was no such node or it held no value.
pub proof fn law_written_values_are_extracted<T, V: VTable<T>>(
    before: Seq<ItemView>,
    after: Seq<ItemView>,
    nodes: Seq<NodeView<T, V>>,
    seq: u32,
    key: Seq<char>,
)
    requires
        seq != 0,
        data_elems(nodes).len() > 0,
        appended(before, after, record_elems(nodes, seq)),
        distinct_keys(nodes),
        forall|i: int|
            0 <= i < nodes.len() ==> encode_utf8((#[trigger] nodes[i]).key).len()
                < 0x1_0000_0000_0000_0000,
    ensures
        ({
            let r = RecordView { seq, start: before.len() as int, end: after.len() - 1 };
            let node = nodes[index_of(nodes, key)];
            first_body(extracted(after, r), key) == (if has_key(nodes, key)
                && node.state.has_value() {
                Some(node.vtable.encoded(node.value->0)->0)
            } else {
                None
            })
        }),
{
    let start = before.len() as int;
    let end = after.len() - 1;
    let r = RecordView { seq, start, end };
    let elems = record_elems(nodes, seq);
    lemma_appended_shape(before, after, nodes, seq);
    law_good_record_is_extractable(after, r);
    let inner = after.subrange(start + 1, end);
    assert forall|i: int| 0 <= i < inner.len() implies (#[trigger] inner[i]).elem == Some(
        data_elems(nodes)[i],
    ) by {
        assert(inner[i] == after[start + 1 + i]);
        assert(elems[i + 1] == data_elems(nodes)[i]);
    }
    lemma_first_body_of_nodes(inner, nodes, key);
}

} // verus!
