//! Laws of reading, down to the elements: which records count, which of them is read, and what
//! each node gets from it.
use crate::cbor;
use crate::crc32::crc32_of;
use crate::elem::{key_val_of, kv_of, ElemView};
use crate::extract::law_when_a_record_is_extracted;
use crate::laws_garbage::lemma_records_in_order;
use crate::laws_record::law_good_record_is_extractable;
use crate::laws_seq::{law_newest_record_is_known, lemma_remembers};
use crate::model::ListView;
use crate::record::{
    data_of, good_records, highest_start, is_data, is_good_record, law_scan_finds_the_good_records,
    lemma_good_records_numbered, lemma_highest_start, numbers_below, RecordView,
};
use crate::seq_state::{lemma_highest, slot_seq, SeqStateView};
use crate::storage::ItemView;
use crate::storage_node::{body_in, first_body, State, VTable};
use vstd::prelude::*;
use vstd::utf8::encode_utf8;

verus! {

/// What data elements hold behind their headers, one after the other.
proof fn lemma_data_of_pieces(items: Seq<ItemView>, pieces: Seq<Seq<u8>>)
    requires
        pieces.len() == items.len(),
        forall|k: int|
            0 <= k < items.len() ==> ((#[trigger] items[k]).elem matches Some(
                ElemView::Data { bytes },
            ) && bytes.len() > 0 && pieces[k] == bytes.skip(1)),
    ensures
        data_of(items) == pieces.flatten_alt(),
    decreases items.len(),
{
    if items.len() > 0 {
        let front = items.drop_last();
        assert forall|k: int| 0 <= k < front.len() implies ((#[trigger] front[k]).elem matches Some(
            ElemView::Data { bytes },
        ) && bytes.len() > 0 && pieces.drop_last()[k] == bytes.skip(1)) by {
            assert(front[k] == items[k]);
        }
        lemma_data_of_pieces(front, pieces.drop_last());
        assert(items[items.len() - 1] == items.last());
    }
}

/// A Start element, data elements and an End element, one right behind the other, are a record
/// exactly if there is at least one data element, both ends carry one number, which is not 0,
/// and the End element carries the checksum of what the data elements hold behind their
/// headers. However many data elements there are, and wherever they lie, plays no part.
pub proof fn law_what_a_good_record_is(
    items: Seq<ItemView>,
    r: RecordView,
    pieces: Seq<Seq<u8>>,
    seq: u32,
    crc: u32,
)
    requires
        0 <= r.start < r.end < items.len(),
        items[r.start].elem == Some(ElemView::Start { seq }),
        items[r.end].elem == Some(ElemView::End { seq: r.seq, crc }),
        pieces.len() == r.end - r.start - 1,
        forall|k: int|
            r.start < k < r.end ==> ((#[trigger] items[k]).elem matches Some(
                ElemView::Data { bytes },
            ) && bytes.len() > 0 && pieces[k - r.start - 1] == bytes.skip(1)),
    ensures
        is_good_record(items, r) <==> pieces.len() > 0 && seq == r.seq && seq != 0 && crc
            == crc32_of(pieces.flatten_alt()),
{
    let inner = items.subrange(r.start + 1, r.end);
    assert forall|k: int| 0 <= k < inner.len() implies ((#[trigger] inner[k]).elem matches Some(
        ElemView::Data { bytes },
    ) && bytes.len() > 0 && pieces[k] == bytes.skip(1)) by {
        assert(inner[k] == items[r.start + 1 + k]);
    }
    lemma_data_of_pieces(inner, pieces);
    assert forall|k: int| r.start < k < r.end implies is_data(#[trigger] items[k]) by {}
}

/// Anything but a data element between the ends makes a record bad, and so does anything but a
/// Start and an End element at its ends.
pub proof fn law_a_record_is_unbroken(items: Seq<ItemView>, r: RecordView, k: int)
    requires
        is_good_record(items, r),
    ensures
        0 <= r.start,
        r.start + 1 < r.end < items.len(),
        items[r.start].elem == Some(ElemView::Start { seq: r.seq }),
        items[r.end].elem matches Some(ElemView::End { seq, .. }) && seq == r.seq,
        r.start < k < r.end ==> items[k].elem matches Some(ElemView::Data { .. }),
{
    if r.start < k < r.end {
        assert(is_data(items[k]));
    }
}

/// A key and a value that stand one behind the other are taken apart as they were put
/// together. Where there is no text in front, there is no key.
pub proof fn law_key_and_value_come_apart(key: Seq<char>, body: Seq<u8>, bytes: Seq<u8>)
    ensures
        encode_utf8(key).len() < 0x1_0000_0000_0000_0000 ==> kv_of(cbor::text(key) + body) == Some(
            (key, body),
        ),
        cbor::text_decoded(bytes) is None ==> kv_of(bytes) is None,
        kv_of(bytes) matches Some((k, b)) ==> cbor::text_decoded(bytes) == Some(k) && b
            == bytes.skip(cbor::text(k).len() as int),
        cbor::text_decoded(bytes) matches Some(k) ==> (cbor::text(k).len() <= bytes.len()
            ==> kv_of(bytes) is Some),
        bytes.len() > 0 ==> key_val_of(bytes) == bytes.skip(1),
{
    if encode_utf8(key).len() < 0x1_0000_0000_0000_0000 {
        cbor::lemma_text_round_trip(key, body);
    }
}

/// Of the data elements that hold a key, the first one counts.
proof fn lemma_first_body_at(items: Seq<ItemView>, key: Seq<char>, j: int, body: Seq<u8>)
    requires
        0 <= j < items.len(),
        body_in(items[j].elem, key) == Some(body),
        forall|k: int| 0 <= k < j ==> body_in((#[trigger] items[k]).elem, key) is None,
    ensures
        first_body(items, key) == Some(body),
    decreases items.len(),
{
    let front = items.drop_last();
    if j < items.len() - 1 {
        assert forall|k: int| 0 <= k < j implies body_in((#[trigger] front[k]).elem, key) is None by {
            assert(front[k] == items[k]);
        }
        lemma_first_body_at(front, key, j, body);
    } else {
        assert forall|k: int| 0 <= k < front.len() implies body_in(
            (#[trigger] front[k]).elem,
            key,
        ) is None by {
            assert(front[k] == items[k]);
        }
        lemma_no_body(front, key);
    }
}

proof fn lemma_no_body(items: Seq<ItemView>, key: Seq<char>)
    requires
        forall|k: int| 0 <= k < items.len() ==> body_in((#[trigger] items[k]).elem, key) is None,
    ensures
        first_body(items, key) is None,
    decreases items.len(),
{
    if items.len() > 0 {
        let front = items.drop_last();
        assert forall|k: int| 0 <= k < front.len() implies body_in(
            (#[trigger] front[k]).elem,
            key,
        ) is None by {
            assert(front[k] == items[k]);
        }
        lemma_no_body(front, key);
        assert(items[items.len() - 1] == items.last());
    }
}

/// The record that is read: the newest that is known, or, before the first scan, the good
/// record with the highest number.
proof fn lemma_record_read<T, V: VTable<T>>(
    list: ListView<T, V>,
    items: Seq<ItemView>,
    r: RecordView,
)
    requires
        list.wf(),
        is_good_record(items, r),
        (list.seq.next_seq is Some && list.seq.records[list.seq.records.len() - 1] == Some(r)) || (
        list.seq.next_seq is None && (forall|k: int|
            0 <= k < list.seq.records.len() ==> #[trigger] list.seq.records[k] is None)
            && (forall|q: RecordView|
            #[trigger] is_good_record(items, q) && q != r ==> q.seq < r.seq)),
    ensures
        list.after_scan(items).seq.highest() == Some(r),
        list.after_scan(items).readable(items),
        list.after_scan(items).hydrating(items) == items.subrange(r.start + 1, r.end),
{
    law_good_record_is_extractable(items, r);
    if list.seq.next_seq is None {
        let k = list.seq.records.len();
        let found = good_records(items);
        let none = SeqStateView::unscanned(k);
        assert(list.seq.records =~= none.records);
        lemma_good_records_numbered(items);
        law_newest_record_is_known(k, found, highest_start(items));
        lemma_same_scan(list.seq, none, found);
        law_scan_finds_the_good_records(items, r);
        let ir = choose|i: int| 0 <= i < found.len() && found[i] == r;
        assert(found[ir].seq == r.seq);
        let h = none.scanned(found, highest_start(items)).highest()->0;
        law_scan_finds_the_good_records(items, h);
        assert(h == r);
    }
}

/// What a scan finds does not depend on anything but the slots that it starts from.
proof fn lemma_same_scan(a: SeqStateView, b: SeqStateView, found: Seq<RecordView>)
    requires
        a.records == b.records,
    ensures
        a.with_all(found).records == b.with_all(found).records,
    decreases found.len(),
{
    if found.len() > 0 {
        lemma_same_scan(a, b, found.drop_last());
    }
}

/// A node that waits for data takes, from the first data element under its key in the newest
/// record, the value that its bytes stand for. Where they stand for none, the node is as if
/// there had been no data.
pub proof fn law_a_node_takes_its_value<T, V: VTable<T>>(
    list: ListView<T, V>,
    items: Seq<ItemView>,
    r: RecordView,
    i: int,
    j: int,
    body: Seq<u8>,
)
    requires
        list.wf(),
        is_good_record(items, r),
        (list.seq.next_seq is Some && list.seq.records[list.seq.records.len() - 1] == Some(r)) || (
        list.seq.next_seq is None && (forall|k: int|
            0 <= k < list.seq.records.len() ==> #[trigger] list.seq.records[k] is None)
            && (forall|q: RecordView|
            #[trigger] is_good_record(items, q) && q != r ==> q.seq < r.seq)),
        0 <= i < list.nodes.len(),
        list.nodes[i].state == State::Initial,
        r.start < j < r.end,
        items[j].elem matches Some(ElemView::Data { bytes }) && bytes.len() > 0 && kv_of(
            bytes.skip(1),
        ) == Some((list.nodes[i].key, body)),
        forall|k: int|
            r.start < k < j ==> ((#[trigger] items[k]).elem matches Some(ElemView::Data { bytes })
                && bytes.len() > 0 && !(kv_of(bytes.skip(1)) matches Some((key, _)) && key
                == list.nodes[i].key)),
    ensures
        ({
            let before = list.nodes[i];
            let after = list.after_read(items).nodes[i];
            &&& list.after_scan(items).readable(items)
            &&& after.key == before.key
            &&& after.vtable == before.vtable
            &&& before.vtable.decoded(body) matches Some(t) ==> after.value == Some(t)
                && after.state == State::ValidNoWriteNeeded
            &&& before.vtable.decoded(body) is None ==> after.value is None && after.state
                == State::NonResident
        }),
{
    lemma_record_read(list, items, r);
    let data = items.subrange(r.start + 1, r.end);
    let key = list.nodes[i].key;
    let at = j - r.start - 1;
    assert(data[at] == items[j]);
    assert forall|k: int| 0 <= k < at implies body_in((#[trigger] data[k]).elem, key) is None by {
        assert(data[k] == items[r.start + 1 + k]);
    }
    lemma_first_body_at(data, key, at, body);
    assert(list.nodes[i].wf());
}

/// A node that waits for data, and whose key is in none of the data elements of the newest
/// record, gets no value. The same holds where there is no record.
pub proof fn law_a_node_without_data_gets_none<T, V: VTable<T>>(
    list: ListView<T, V>,
    items: Seq<ItemView>,
    i: int,
)
    requires
        list.wf(),
        0 <= i < list.nodes.len(),
        list.nodes[i].state == State::Initial,
        (exists|r: RecordView|
            {
                &&& #[trigger] is_good_record(items, r)
                &&& (list.seq.next_seq is Some && list.seq.records[list.seq.records.len() - 1]
                    == Some(r)) || (list.seq.next_seq is None && (forall|k: int|
                    0 <= k < list.seq.records.len() ==> #[trigger] list.seq.records[k] is None)
                    && (forall|q: RecordView|
                    #[trigger] is_good_record(items, q) && q != r ==> q.seq < r.seq))
                &&& forall|k: int|
                    r.start < k < r.end ==> ((#[trigger] items[k]).elem matches Some(
                        ElemView::Data { bytes },
                    ) && bytes.len() > 0 && !(kv_of(bytes.skip(1)) matches Some((key, _)) && key
                        == list.nodes[i].key))
            }) || (list.seq.next_seq is Some && list.seq.records[list.seq.records.len() - 1] is None)
            || (list.seq.next_seq is None && (forall|k: int|
            0 <= k < list.seq.records.len() ==> #[trigger] list.seq.records[k] is None) && (forall|
            q: RecordView,
        | !#[trigger] is_good_record(items, q))),
    ensures
        ({
            let before = list.nodes[i];
            let after = list.after_read(items).nodes[i];
            &&& list.after_scan(items).readable(items)
            &&& after.key == before.key
            &&& after.vtable == before.vtable
            &&& after.value is None
            &&& after.state == State::NonResident
        }),
{
    let key = list.nodes[i].key;
    assert(list.nodes[i].wf());
    if list.seq.next_seq is Some && list.seq.records[list.seq.records.len() - 1] is None {
        lemma_no_body(Seq::<ItemView>::empty(), key);
    } else if list.seq.next_seq is None && forall|q: RecordView| !#[trigger]
        is_good_record(items, q) {
        let found = good_records(items);
        let none = SeqStateView::unscanned(list.seq.records.len());
        assert(list.seq.records =~= none.records);
        lemma_good_records_numbered(items);
        law_newest_record_is_known(list.seq.records.len(), found, highest_start(items));
        lemma_same_scan(list.seq, none, found);
        if found.len() > 0 {
            assert(found.contains(found[0]));
            law_scan_finds_the_good_records(items, found[0]);
        }
        lemma_no_body(Seq::<ItemView>::empty(), key);
    } else {
        let r = choose|r: RecordView|
            {
                &&& #[trigger] is_good_record(items, r)
                &&& (list.seq.next_seq is Some && list.seq.records[list.seq.records.len() - 1]
                    == Some(r)) || (list.seq.next_seq is None && (forall|k: int|
                    0 <= k < list.seq.records.len() ==> #[trigger] list.seq.records[k] is None)
                    && (forall|q: RecordView|
                    #[trigger] is_good_record(items, q) && q != r ==> q.seq < r.seq))
                &&& forall|k: int|
                    r.start < k < r.end ==> ((#[trigger] items[k]).elem matches Some(
                        ElemView::Data { bytes },
                    ) && bytes.len() > 0 && !(kv_of(bytes.skip(1)) matches Some((key, _)) && key
                        == list.nodes[i].key))
            };
        lemma_record_read(list, items, r);
        let data = items.subrange(r.start + 1, r.end);
        assert forall|k: int| 0 <= k < data.len() implies body_in(
            (#[trigger] data[k]).elem,
            key,
        ) is None by {
            assert(data[k] == items[r.start + 1 + k]);
        }
        lemma_no_body(data, key);
    }
}

/// A value that a node has got from a read comes from a good record: there is one, none has a
/// higher number, and one of its data elements holds the key and bytes that stand for the value.
pub proof fn law_a_value_that_was_read_is_stored<T, V: VTable<T>>(
    list: ListView<T, V>,
    items: Seq<ItemView>,
    i: int,
)
    requires
        list.wf(),
        list.seq.next_seq is None,
        forall|k: int| 0 <= k < list.seq.records.len() ==> #[trigger] list.seq.records[k] is None,
        0 <= i < list.nodes.len(),
        list.nodes[i].state == State::Initial,
        list.after_read(items).nodes[i].value is Some,
    ensures
        exists|r: RecordView, j: int|
            #![trigger is_good_record(items, r), items[j]]
            {
                &&& is_good_record(items, r)
                &&& forall|q: RecordView| #[trigger] is_good_record(items, q) ==> q.seq <= r.seq
                &&& r.start < j < r.end
                &&& items[j].elem matches Some(ElemView::Data { bytes })
                &&& kv_of(key_val_of(bytes)) matches Some((key, body))
                &&& key == list.nodes[i].key
                &&& list.nodes[i].vtable.decoded(body) == list.after_read(items).nodes[i].value
            },
{
    let found = good_records(items);
    let k = list.seq.records.len();
    let none = SeqStateView::unscanned(k);
    let key = list.nodes[i].key;
    assert(list.nodes[i].wf());
    assert(list.seq.records =~= none.records);
    lemma_good_records_numbered(items);
    law_newest_record_is_known(k, found, highest_start(items));
    lemma_same_scan(list.seq, none, found);
    let data = list.after_scan(items).hydrating(items);
    if found.len() == 0 {
        lemma_no_body(data, key);
    }
    let r = none.scanned(found, highest_start(items)).highest()->0;
    law_scan_finds_the_good_records(items, r);
    law_good_record_is_extractable(items, r);
    assert forall|q: RecordView| #[trigger] is_good_record(items, q) implies q.seq <= r.seq by {
        law_scan_finds_the_good_records(items, q);
        let iq = choose|n: int| 0 <= n < found.len() && found[n] == q;
        assert(found[iq].seq == q.seq);
    }
    let at = lemma_body_somewhere(data, key);
    assert(data[at] == items[r.start + 1 + at]);
    assert(is_data(items[r.start + 1 + at]));
}

proof fn lemma_body_somewhere(items: Seq<ItemView>, key: Seq<char>) -> (j: int)
    requires
        first_body(items, key) is Some,
    ensures
        0 <= j < items.len(),
        body_in(items[j].elem, key) == first_body(items, key),
    decreases items.len(),
{
    if first_body(items.drop_last(), key) is Some {
        lemma_body_somewhere(items.drop_last(), key)
    } else {
        items.len() - 1
    }
}

/// What a node gets from a read depends on what is known of the storage, on the storage, and on
/// the node itself, and on nothing else: not on the other nodes, whatever state they are in,
/// nor on what has been asked for.
pub proof fn law_each_node_is_read_for_itself<T, V: VTable<T>>(
    a: ListView<T, V>,
    b: ListView<T, V>,
    items: Seq<ItemView>,
    i: int,
    j: int,
)
    requires
        a.seq.next_seq == b.seq.next_seq,
        a.seq.records == b.seq.records,
        0 <= i < a.nodes.len(),
        0 <= j < b.nodes.len(),
        a.nodes[i] == b.nodes[j],
    ensures
        a.after_read(items).nodes[i] == b.after_read(items).nodes[j],
        a.after_scan(items).seq.records == b.after_scan(items).seq.records,
        a.after_scan(items).seq.next_seq == b.after_scan(items).seq.next_seq,
        a.after_scan(items).readable(items) == b.after_scan(items).readable(items),
        a.after_scan(items).hydrating(items) == b.after_scan(items).hydrating(items),
        a.after_scan(items).hydration_pass(items) == b.after_scan(items).hydration_pass(items),
        a.scan_pass(items) == b.scan_pass(items),
{
    lemma_same_scan(a.seq, b.seq, good_records(items));
}

/// A read leaves the nodes alone that do not wait for data, and all that is not a node, but for
/// what a scan finds out. None of the nodes waits any more.
pub proof fn law_a_read_leaves_the_rest<T, V: VTable<T>>(
    list: ListView<T, V>,
    items: Seq<ItemView>,
    i: int,
)
    ensures
        ({
            let after = list.after_read(items);
            &&& after.nodes.len() == list.nodes.len()
            &&& 0 <= i < list.nodes.len() && list.nodes[i].state != State::Initial
                ==> after.nodes[i] == list.nodes[i]
            &&& 0 <= i < list.nodes.len() ==> after.nodes[i].state != State::Initial
            &&& after.seq == list.after_scan(items).seq
            &&& after.id == list.id
            &&& after.needs_read == list.needs_read
            &&& after.needs_write == list.needs_write
            &&& list.after_scan(items).nodes == list.nodes
            &&& list.seq.next_seq is Some ==> after.seq == list.seq
        }),
{
}

/// What the first scan of a storage finds out: the slots hold good records, in the order of
/// their numbers, and a good record that is in none of them is not newer than any of those that
/// are. There is garbage to look for where there is a record. The next number is the lowest
/// that is above those of all Start elements.
pub proof fn law_what_a_scan_finds_out<T, V: VTable<T>>(
    list: ListView<T, V>,
    items: Seq<ItemView>,
    r: RecordView,
    i: int,
)
    requires
        list.wf(),
        list.seq.next_seq is None,
        !list.seq.needs_gc,
        forall|k: int| 0 <= k < list.seq.records.len() ==> #[trigger] list.seq.records[k] is None,
    ensures
        ({
            let s = list.after_scan(items).seq;
            &&& s.records.len() == list.seq.records.len()
            &&& 0 <= i < s.records.len() ==> (s.records[i] matches Some(q) ==> is_good_record(
                items,
                q,
            ))
            &&& is_good_record(items, r) && !s.records.contains(Some(r)) ==> (0 <= i
                < s.records.len() ==> (s.records[i] matches Some(q) && q.seq >= r.seq))
            &&& is_good_record(items, r) ==> s.needs_gc && s.records[s.records.len() - 1] is Some
            &&& (forall|q: RecordView| !#[trigger] is_good_record(items, q)) ==> !s.needs_gc
            &&& s.next_seq matches Some(next) ==> {
                &&& next > 0
                &&& forall|k: int|
                    0 <= k < items.len() ==> ((#[trigger] items[k]).elem matches Some(
                        ElemView::Start { seq },
                    ) ==> seq < next)
                &&& next == 1 || exists|k: int|
                    0 <= k < items.len() && (#[trigger] items[k]).elem == Some(
                        ElemView::Start { seq: (next - 1) as u32 },
                    )
            }
            &&& s.next_seq is None ==> exists|k: int|
                0 <= k < items.len() && (#[trigger] items[k]).elem == Some(
                    ElemView::Start { seq: u32::MAX },
                )
        }),
{
    let found = good_records(items);
    let n = list.seq.records.len();
    let none = SeqStateView::unscanned(n);
    let top = highest_start(items);
    let s = list.after_scan(items).seq;
    assert(list.seq.records =~= none.records);
    assert(list.seq == none);
    lemma_good_records_numbered(items);
    lemma_remembers(n, found);
    law_newest_record_is_known(n, found, top);
    law_scan_finds_the_good_records(items, r);
    let known = none.with_all(found);
    assert(s.records == known.records);
    lemma_highest(known);
    if 0 <= i < s.records.len() {
        if let Some(q) = s.records[i] {
            assert(found.contains(q));
            law_scan_finds_the_good_records(items, q);
        }
    }
    if is_good_record(items, r) && !s.records.contains(Some(r)) && 0 <= i < s.records.len() {
        assert(found.contains(r));
        assert(slot_seq(known.records[0]) <= slot_seq(known.records[i]));
        assert(slot_seq(s.records[i]) >= r.seq);
        assert(r.seq > 0);
    }
    if found.len() > 0 {
        assert(found.contains(found[0]));
        law_scan_finds_the_good_records(items, found[0]);
        // the newest record has a Start element
        let h = known.highest()->0;
        law_scan_finds_the_good_records(items, h);
        assert(items[h.start].elem == Some(ElemView::Start { seq: h.seq }));
        lemma_start_below_top(items, h.start);
    }
    if top > 0 {
        let at = lemma_top_is_a_start(items);
        if let Some(next) = s.next_seq {
            assert(next - 1 == top);
            lemma_highest_start(items, next);
        }
    } else if let Some(next) = s.next_seq {
        lemma_highest_start(items, next);
    }
}

/// No Start element has a number above the highest.
proof fn lemma_start_below_top(items: Seq<ItemView>, at: int)
    requires
        0 <= at < items.len(),
    ensures
        items[at].elem matches Some(ElemView::Start { seq }) ==> seq <= highest_start(items),
{
    if highest_start(items) < u32::MAX {
        lemma_highest_start(items, (highest_start(items) + 1) as u32);
        assert(numbers_below(items, (highest_start(items) + 1) as u32));
    }
}

/// The highest number is that of a Start element.
proof fn lemma_top_is_a_start(items: Seq<ItemView>) -> (at: int)
    requires
        highest_start(items) > 0,
    ensures
        0 <= at < items.len(),
        items[at].elem == Some(ElemView::Start { seq: highest_start(items) }),
    decreases items.len(),
{
    if highest_start(items) == highest_start(items.drop_last()) {
        lemma_top_is_a_start(items.drop_last())
    } else {
        items.len() - 1
    }
}

/// The good records are found in the order in which they lie in the storage, and each of them
/// once.
pub proof fn law_records_are_found_in_order(items: Seq<ItemView>, i: int, j: int, r: RecordView)
    ensures
        is_good_record(items, r) <==> exists|k: int|
            0 <= k < good_records(items).len() && #[trigger] good_records(items)[k] == r,
        0 <= i < j < good_records(items).len() ==> good_records(items)[i].end
            < good_records(items)[j].start,
{
    let found = good_records(items);
    law_scan_finds_the_good_records(items, r);
    if is_good_record(items, r) {
        let k = choose|k: int| 0 <= k < found.len() && found[k] == r;
        assert(found[k] == r);
    }
    if exists|k: int| 0 <= k < found.len() && #[trigger] found[k] == r {
        assert(found.contains(r));
    }
    if 0 <= i < j < found.len() {
        lemma_records_in_order(items);
        let a = found[i];
        let b = found[j];
        assert(found.contains(a) && found.contains(b));
        law_scan_finds_the_good_records(items, a);
        law_scan_finds_the_good_records(items, b);
        assert(a.end < b.end);
        // the End element of the first cannot lie among the data of the second
        if b.start <= a.end {
            assert(items[a.end].elem matches Some(elem) && elem is End);
            if a.end == b.start {
                assert(items[b.start].elem matches Some(elem) && elem is Start);
            } else {
                assert(is_data(items[a.end]));
            }
        }
    }
}

/// A scan adds what it finds to what is known, one good record after the other, and then takes
/// the number after the highest of all.
pub proof fn law_a_scan_adds_to_what_is_known<T, V: VTable<T>>(
    list: ListView<T, V>,
    items: Seq<ItemView>,
    i: int,
)
    requires
        list.seq.records.len() > 0,
        list.seq.next_seq is None,
    ensures
        ({
            let s = list.after_scan(items).seq;
            let known = list.seq.with_all(good_records(items));
            &&& s.records == known.records
            &&& s.needs_gc == known.needs_gc
            &&& s.next_seq matches Some(next) ==> {
                &&& s.records.last() matches Some(newest) ==> newest.seq < next
                &&& 0 <= i < items.len() ==> (items[i].elem matches Some(ElemView::Start { seq })
                    ==> seq < next)
            }
        }),
{
    if 0 <= i < items.len() {
        lemma_start_below_top(items, i);
    }
}

/// Whether the newest known record can be read, and what is read of it, is up to that record.
pub proof fn law_the_newest_known_record_is_read<T, V: VTable<T>>(
    list: ListView<T, V>,
    items: Seq<ItemView>,
    end: int,
)
    requires
        list.seq.records.len() > 0,
    ensures
        match list.seq.records[list.seq.records.len() - 1] {
            None => list.readable(items) && list.hydrating(items).len() == 0,
            Some(r) => {
                &&& r.start >= items.len() ==> !list.readable(items) && list.hydrating(items).len()
                    == 0
                &&& 0 <= r.start < end <= items.len() && (forall|k: int|
                    r.start < k < end ==> ((#[trigger] items[k]).elem matches Some(e) && e is Data))
                    && (end < items.len() ==> !(items[end].elem matches Some(e) && e is Data)) ==> {
                    &&& list.readable(items) <==> items[r.start].elem == Some(
                        ElemView::Start { seq: r.seq },
                    ) && end < items.len() && (items[end].elem matches Some(
                        ElemView::End { seq, .. },
                    ) && seq == r.seq)
                    &&& items[r.start].elem == Some(ElemView::Start { seq: r.seq })
                        ==> list.hydrating(items) == items.subrange(r.start + 1, end)
                        && list.hydration_pass(items) == items.take(end + 1)
                    &&& items[r.start].elem != Some(ElemView::Start { seq: r.seq })
                        ==> list.hydrating(items).len() == 0
                }
            },
        },
{
    if let Some(r) = list.seq.records[list.seq.records.len() - 1] {
        if 0 <= r.start < end <= items.len() && (forall|k: int|
            r.start < k < end ==> ((#[trigger] items[k]).elem matches Some(e) && e is Data)) && (end
            < items.len() ==> !(items[end].elem matches Some(e) && e is Data)) {
            law_when_a_record_is_extracted(items, r, end);
        }
    }
}

} // verus!
