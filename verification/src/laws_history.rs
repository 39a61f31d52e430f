//! Laws of a list and a storage over any operations, however they end.
use crate::elem::ElemView;
use crate::extract::extracted;
use crate::laws_garbage::law_garbage_changes_no_read;
use crate::laws_interrupted_garbage::law_interrupted_garbage_changes_no_read;
use crate::laws_list::{
    addressable_keys, gives_back, law_first_read_succeeds, law_read_gives_back_what_was_written,
    law_read_ignores_what_is_no_record, law_scanned_number_is_unused,
};
use crate::laws_record::{law_complete_write_is_found, law_torn_write_is_ignored};
use crate::laws_seq::law_newest_record_is_known;
use crate::model::{
    appended, appended_in_part, collected_in_part, kept, lemma_unwritten_has_data, ListView,
};
use crate::record::{
    good_records, highest_start, is_good_record, law_scan_finds_the_good_records,
    lemma_good_records_numbered, lemma_highest_start, numbers_below, RecordView,
};
use crate::seq_state::{
    below, lemma_below, lemma_with_all_wf, lemma_with_wf, next_after, slot_seq, SeqStateView,
};
use crate::storage::{perhaps_torn, ItemView};
use crate::storage_node::{
    all_hydrated, first_body, has_key, index_of, lemma_index_of, NodeView, VTable,
};
use crate::verify_record::law_verified_is_good;
use vstd::prelude::*;

verus! {

/// A list and the items of its storage.
pub struct Moment<T, V> {
    pub list: ListView<T, V>,
    pub items: Seq<ItemView>,
}

impl<T, V: VTable<T>> Moment<T, V> {
    /// Whether one operation, however it ends, can lead from here to `after`, on a storage that
    /// keeps what is pushed to it and is changed by nothing else.
    pub open spec fn leads_to(self, after: Self) -> bool {
        ||| self.list.nodes_lead_to(after.list) && after.items == self.items
        ||| after.list == self.list.forgotten() && after.items == self.items
        ||| self.list.read_leads_to(self.items, after.list) && after.items == self.items
        ||| self.list.write_leads_to(self.items, after.list, after.items)
        ||| self.list.garbage_leads_to(self.items, after.list, after.items)
    }
}

/// Whether the moments are those of a new list and any operations: each leads to the next, and
/// at the first the list knows nothing of the storage.
pub open spec fn is_history<T, V: VTable<T>>(history: Seq<Moment<T, V>>) -> bool {
    &&& history.len() > 0
    &&& history[0].list.seq == SeqStateView::unscanned(history[0].list.seq.records.len())
    &&& forall|i: int| 0 <= i < history.len() ==> (#[trigger] history[i]).list.wf()
    &&& forall|i: int|
        0 < i < history.len() ==> history[i - 1].leads_to(#[trigger] history[i])
}

/// A number above those of all Start elements is above those of all good records.
proof fn lemma_above_starts<T, V>(list: ListView<T, V>, items: Seq<ItemView>)
    requires
        list.seq.next_seq matches Some(next) ==> numbers_below(items, next),
    ensures
        list.ahead_of(items),
{
    if let Some(next) = list.seq.next_seq {
        assert forall|r: RecordView| #[trigger] is_good_record(items, r) implies r.seq < next by {
            assert(items[r.start].elem == Some(ElemView::Start { seq: r.seq }));
        }
    }
}

/// Of a record that has been written in part, nothing is a good record, unless it is all there.
pub proof fn lemma_written_in_part<T, V: VTable<T>>(
    list: ListView<T, V>,
    items: Seq<ItemView>,
    left: Seq<ItemView>,
    elems: Seq<ElemView>,
)
    requires
        list.wf(),
        list.seq.next_seq is Some,
        list.unwritten(),
        elems == list.next_record() || elems == list.next_record().take(1),
        appended_in_part(items, left, elems),
    ensures
        items.is_prefix_of(left),
        good_records(left) == good_records(items) || (elems == list.next_record() && appended(
            items,
            left,
            elems,
        )),
{
    let seq = list.seq.next_seq->0;
    let all = list.next_record();
    let (k, mid) = choose|k: int, mid: Seq<ItemView>|
        0 <= k <= elems.len() && appended(items, mid, #[trigger] elems.take(k))
            && #[trigger] perhaps_torn(mid, left) && (k == elems.len() ==> left == mid);
    assert(all.len() >= 2);
    assert(elems.take(k) =~= all.take(k));
    if k == all.len() {
        assert(elems.take(k) =~= elems);
        assert(left =~= mid);
    } else {
        let torn = left.skip(mid.len() as int);
        assert(mid + torn =~= left) by {
            if left != mid {
                assert(left =~= mid.push(left.last()));
            }
        }
        assert forall|i: int| 0 <= i < torn.len() implies (#[trigger] torn[i]).elem is None by {
            assert(torn[i] == left[mid.len() + i]);
        }
        law_torn_write_is_ignored(items, mid, torn, list.nodes, seq, k);
    }
    assert forall|i: int| 0 <= i < items.len() implies items[i] == left[i] by {
        assert(mid[i] == items[i]);
        if left != mid {
            assert(left.drop_last()[i] == left[i]);
        }
    }
    assert(items =~= left.subrange(0, items.len() as int));
}

/// The record that a list reads back after a complete write under a new number is the one that
/// it has written, and it is the newest that the list knows then.
pub proof fn lemma_reads_back_its_own<T, V: VTable<T>>(
    list: ListView<T, V>,
    items: Seq<ItemView>,
    left: Seq<ItemView>,
)
    requires
        list.wf(),
        list.ahead_of(items),
        list.seq.next_seq is Some,
        list.unwritten(),
        appended(items, left, list.next_record()),
        list.read_back(left) is Some,
    ensures
        ({
            let seq = list.seq.next_seq->0;
            let w = RecordView { seq, start: items.len() as int, end: left.len() - 1 };
            &&& list.read_back(left) == Some(w)
            &&& good_records(left) == good_records(items).push(w)
            &&& list.after_write(w).seq.highest() == Some(w)
            &&& list.after_write(w).seq.next_seq == next_after(seq)
        }),
{
    let seq = list.seq.next_seq->0;
    let n = list.seq.records.len();
    let w = RecordView { seq, start: items.len() as int, end: left.len() - 1 };
    let r = list.read_back(left)->0;
    assert(slot_seq(list.seq.records[n - 1]) < seq);
    lemma_unwritten_has_data(list);
    law_complete_write_is_found(items, left, list.nodes, seq);
    law_verified_is_good(
        left,
        seq,
        crate::crc32::crc32_of(crate::write_record::all_key_vals(list.nodes)),
        crate::write_record::data_elems(list.nodes).len(),
    );
    law_scan_finds_the_good_records(left, r);
    let found = good_records(items);
    let i = choose|i: int| 0 <= i < good_records(left).len() && good_records(left)[i] == r;
    if i < found.len() {
        assert(found[i] == r);
        assert(found.contains(r));
        law_scan_finds_the_good_records(items, r);
        assert(false);
    }
    lemma_with_wf(list.seq, w);
    let rest = list.seq.records.drop_first();
    let at = below(rest, seq);
    lemma_below(rest, seq);
    assert(slot_seq(list.seq.records[0]) < seq);
    let records = list.seq.with(w).records;
    assert(records == rest.insert(at, Some(w)));
    if at < n - 1 {
        assert(rest[n - 2] == list.seq.records[n - 1]);
        assert(records[n - 1] == rest[n - 2]);
        assert(records[at] == Some(w));
        assert(slot_seq(records[at]) <= slot_seq(records[n - 1]));
    }
    assert(records.last() == Some(w));
}

/// One operation, however it ends, keeps the next number above those of all good records.
pub proof fn law_operation_stays_ahead<T, V: VTable<T>>(a: Moment<T, V>, b: Moment<T, V>)
    requires
        a.list.wf(),
        a.list.ahead_of(a.items),
        a.leads_to(b),
    ensures
        b.list.ahead_of(b.items),
{
    let list = a.list;
    let items = a.items;
    let left = b.items;
    if list.nodes_lead_to(b.list) && left == items {
    } else if b.list == list.forgotten() && left == items {
    } else if list.read_leads_to(items, b.list) && left == items {
        if list.seq.next_seq is None {
            law_scanned_number_is_unused(list, items);
            lemma_above_starts(list.after_scan(items), items);
        }
        assert(b.list.seq == list.seq || b.list.seq == list.after_scan(items).seq);
    } else if list.write_leads_to(items, b.list, left) {
        let seq = list.seq.next_seq->0;
        let n = list.seq.records.len();
        assert(slot_seq(list.seq.records[n - 1]) < seq);
        if appended(items, left, list.next_record()) && list.read_back(left) is Some && b.list
            == list.after_write(list.read_back(left)->0) {
            lemma_reads_back_its_own(list, items, left);
            lemma_ahead_after_write(list, items, left, b.list);
        } else if appended_in_part(items, left, list.next_record()) && b.list
            == list.after_failed_write() {
            lemma_written_in_part(list, items, left, list.next_record());
            if good_records(left) == good_records(items) {
                lemma_ahead_same_records(list, items, left, b.list);
            } else {
                lemma_unwritten_has_data(list);
                law_complete_write_is_found(items, left, list.nodes, seq);
                lemma_ahead_after_write(list, items, left, b.list);
            }
        } else {
            lemma_written_in_part(list, items, left, list.next_record().take(1));
            lemma_ahead_same_records(list, items, left, b.list);
        }
    } else if b.list == list.after_garbage(items) {
        let scanned = list.forgotten().seq.scanned(good_records(left), highest_start(left));
        if let Some(next) = scanned.next_seq {
            lemma_highest_start(left, next);
            assert(numbers_below(left, next));
            lemma_above_starts(b.list, left);
        }
    }
}

proof fn lemma_ahead_same_records<T, V>(
    list: ListView<T, V>,
    items: Seq<ItemView>,
    left: Seq<ItemView>,
    after: ListView<T, V>,
)
    requires
        list.ahead_of(items),
        list.seq.next_seq is Some,
        good_records(left) == good_records(items),
        after.seq.next_seq matches Some(next) ==> list.seq.next_seq->0 <= next,
    ensures
        after.ahead_of(left),
{
    if let Some(next) = after.seq.next_seq {
        assert forall|r: RecordView| #[trigger] is_good_record(left, r) implies r.seq < next by {
            law_scan_finds_the_good_records(left, r);
            law_scan_finds_the_good_records(items, r);
        }
    }
}

proof fn lemma_ahead_after_write<T, V>(
    list: ListView<T, V>,
    items: Seq<ItemView>,
    left: Seq<ItemView>,
    after: ListView<T, V>,
)
    requires
        list.ahead_of(items),
        list.seq.next_seq is Some,
        good_records(left) == good_records(items).push(
            RecordView {
                seq: list.seq.next_seq->0,
                start: items.len() as int,
                end: left.len() - 1,
            },
        ),
        after.seq.next_seq == next_after(list.seq.next_seq->0),
    ensures
        after.ahead_of(left),
{
    if let Some(next) = after.seq.next_seq {
        let found = good_records(items);
        assert forall|r: RecordView| #[trigger] is_good_record(left, r) implies r.seq < next by {
            law_scan_finds_the_good_records(left, r);
            let i = choose|i: int| 0 <= i < good_records(left).len() && good_records(left)[i] == r;
            if i < found.len() {
                assert(found[i] == r);
                assert(found.contains(r));
                law_scan_finds_the_good_records(items, r);
            }
        }
    }
}

/// Whatever operations a list has gone through since it was new, and however they have ended:
/// the next number is above those of all good records.
pub proof fn law_lists_stay_ahead<T, V: VTable<T>>(history: Seq<Moment<T, V>>)
    requires
        is_history(history),
    ensures
        history.last().list.ahead_of(history.last().items),
    decreases history.len(),
{
    if history.len() > 1 {
        let front = history.drop_last();
        assert forall|i: int| 0 < i < front.len() implies front[i - 1].leads_to(
            #[trigger] front[i],
        ) by {
            assert(front[i - 1] == history[i - 1] && front[i] == history[i]);
        }
        assert forall|i: int| 0 <= i < front.len() implies (#[trigger] front[i]).list.wf() by {
            assert(front[i] == history[i]);
        }
        law_lists_stay_ahead(front);
        let n = history.len() - 1;
        assert(history[n - 1].leads_to(history[n]));
        assert(history[n - 1].list.wf());
        law_operation_stays_ahead(history[n - 1], history[n]);
    }
}

/// What was written is what is loaded: after a list, whatever it has gone through since it was
/// new, has written its values, a new list gets for each key the value that was written for it,
/// as far as it can be decoded, and its own default for a key that was not written.
pub proof fn law_new_list_loads_what_was_written<T, V: VTable<T>>(
    history: Seq<Moment<T, V>>,
    after: Seq<ItemView>,
    reader: ListView<T, V>,
    key: Seq<char>,
    default: T,
)
    requires
        is_history(history),
        ({
            let writer = history.last().list;
            &&& writer.refused() is None
            &&& writer.unwritten()
            &&& addressable_keys(writer.nodes)
            &&& appended(history.last().items, after, writer.next_record())
        }),
        reader.wf(),
        reader.seq == SeqStateView::unscanned(reader.seq.records.len()),
        has_key(reader.nodes, key),
        reader.node(key).state is Initial,
    ensures
        gives_back(history.last().list, after, reader, key),
        ({
            let writer = history.last().list;
            let written = writer.node(key);
            let bytes = written.vtable.encoded(written.value->0)->0;
            let loaded = reader.after_read(after).attached(key, default).node(key).value;
            if has_key(writer.nodes, key) && written.state.has_value() {
                reader.node(key).vtable.decoded(bytes) matches Some(t) ==> loaded == Some(t)
            } else {
                loaded == Some(default)
            }
        }),
{
    let writer = history.last().list;
    let items = history.last().items;
    law_lists_stay_ahead(history);
    assert(history[history.len() - 1].list.wf());
    law_read_gives_back_what_was_written(writer, items, after, reader, key);
    lemma_attached(reader, after, key, default);
}

/// What a node that has just been read for the first time holds when it is handed out.
proof fn lemma_attached<T, V: VTable<T>>(
    reader: ListView<T, V>,
    items: Seq<ItemView>,
    key: Seq<char>,
    default: T,
)
    requires
        reader.wf(),
        has_key(reader.nodes, key),
    ensures
        ({
            let read = reader.after_read(items);
            let loaded = read.attached(key, default).node(key).value;
            &&& read.node(key) == reader.node(key).hydrated(
                reader.after_scan(items).hydrating(items),
            ).settled()
            &&& loaded == (if read.node(key).state is NonResident {
                Some(default)
            } else {
                read.node(key).value
            })
        }),
{
    let at = index_of(reader.nodes, key);
    let read = reader.after_read(items);
    let nodes = read.nodes;
    assert forall|i: int, j: int| 0 <= i < j < nodes.len() implies (#[trigger] nodes[i]).key != (
    #[trigger] nodes[j]).key by {
        assert(reader.nodes[i].key != reader.nodes[j].key);
    }
    assert(nodes[at].key == key);
    lemma_index_of(nodes, key, at);
    let replaced = read.replaced(key, default).nodes;
    assert forall|i: int, j: int| 0 <= i < j < replaced.len() implies (
    #[trigger] replaced[i]).key != (#[trigger] replaced[j]).key by {
        assert(nodes[i].key != nodes[j].key);
        assert(replaced[i].key == nodes[i].key && replaced[j].key == nodes[j].key);
    }
    assert(replaced[at].key == key);
    lemma_index_of(replaced, key, at);
}

/// The data of the newest record, as a scan that keeps `kept` records finds it.
pub open spec fn newest_data(items: Seq<ItemView>, kept: nat) -> Seq<ItemView> {
    match SeqStateView::unscanned(kept).with_all(good_records(items)).highest() {
        Some(r) => extracted(items, r),
        None => Seq::empty(),
    }
}

/// A node with the key and the table of the given one, read for the first time.
pub open spec fn read_anew<T, V: VTable<T>>(
    node: NodeView<T, V>,
    items: Seq<ItemView>,
    kept: nat,
) -> NodeView<T, V> {
    NodeView::fresh(node.key, node.vtable).hydrated(newest_data(items, kept)).settled()
}

/// Whether no two good records have the highest number.
pub open spec fn one_newest(items: Seq<ItemView>) -> bool {
    forall|a: RecordView, b: RecordView|
        #![trigger is_good_record(items, a), is_good_record(items, b)]
        is_good_record(items, a) && is_good_record(items, b) && a.seq == b.seq && (forall|
            c: RecordView,
        | #[trigger]
            is_good_record(items, c) ==> c.seq <= a.seq) ==> a == b
}

impl<T, V: VTable<T>> ListView<T, V> {
    /// Whether the values that need no write are in the storage.
    pub open spec fn in_sync(self, items: Seq<ItemView>) -> bool {
        forall|i: int|
            0 <= i < self.nodes.len() && (#[trigger] self.nodes[i]).state is ValidNoWriteNeeded
                ==> read_anew(self.nodes[i], items, self.seq.records.len()).value
                == self.nodes[i].value
    }

    /// Whether the values are decoded as they are encoded, and the keys can be addressed.
    pub open spec fn round_trips(self) -> bool {
        &&& addressable_keys(self.nodes)
        &&& forall|i: int|
            0 <= i < self.nodes.len() && (#[trigger] self.nodes[i]).state.has_value() ==> {
                let node = self.nodes[i];
                node.vtable.decoded(node.vtable.encoded(node.value->0)->0) == node.value
            }
    }

    /// Whether the list has scanned the storage, or knows nothing of it: there are still
    /// numbers for records.
    pub open spec fn has_numbers(self) -> bool {
        self.seq.next_seq is Some || self.seq == SeqStateView::unscanned(self.seq.records.len())
    }
}

/// A list of one node that waits for data.
spec fn lone_reader<T, V>(node: NodeView<T, V>, kept: nat) -> ListView<T, V> {
    ListView {
        id: 0,
        nodes: seq![NodeView::fresh(node.key, node.vtable)],
        seq: SeqStateView::unscanned(kept),
        needs_read: false,
        needs_write: false,
    }
}

/// What a list of one node reads.
proof fn lemma_lone_reader<T, V: VTable<T>>(
    node: NodeView<T, V>,
    items: Seq<ItemView>,
    kept: nat,
)
    requires
        kept > 0,
    ensures
        lone_reader(node, kept).wf(),
        has_key(lone_reader(node, kept).nodes, node.key),
        lone_reader(node, kept).node(node.key) == NodeView::<T, V>::fresh(node.key, node.vtable),
        lone_reader(node, kept).after_read(items).nodes[0] == read_anew(node, items, kept),
        lone_reader(node, kept).after_read(items).node(node.key) == read_anew(node, items, kept),
{
    let reader = lone_reader(node, kept);
    assert(reader.nodes[0].key == node.key);
    lemma_index_of(reader.nodes, node.key, 0);
    let nodes = reader.after_read(items).nodes;
    assert(nodes.len() == 1);
    assert(nodes[0].key == node.key);
    lemma_index_of(nodes, node.key, 0);
}

/// A body among the first items is the first among all of them.
pub proof fn lemma_first_body_stays(items: Seq<ItemView>, n: int, key: Seq<char>)
    requires
        0 <= n <= items.len(),
        first_body(items.take(n), key) is Some,
    ensures
        first_body(items, key) == first_body(items.take(n), key),
    decreases items.len(),
{
    if n < items.len() {
        assert(items.drop_last().take(n) =~= items.take(n));
        lemma_first_body_stays(items.drop_last(), n, key);
    } else {
        assert(items.take(n) =~= items);
    }
}

/// What is read anew stays the same where the good records do, and nothing before their end
/// has changed.
proof fn lemma_in_sync_same_records<T, V: VTable<T>>(
    list: ListView<T, V>,
    items: Seq<ItemView>,
    left: Seq<ItemView>,
)
    requires
        list.seq.records.len() > 0,
        list.in_sync(items),
        items.is_prefix_of(left),
        good_records(left) == good_records(items),
    ensures
        list.in_sync(left),
{
    let k = list.seq.records.len();
    assert forall|i: int|
        0 <= i < list.nodes.len() && (
        #[trigger] list.nodes[i]).state is ValidNoWriteNeeded implies read_anew(
        list.nodes[i],
        left,
        k,
    ).value == list.nodes[i].value by {
        let reader = lone_reader(list.nodes[i], k);
        lemma_lone_reader(list.nodes[i], items, k);
        lemma_lone_reader(list.nodes[i], left, k);
        law_read_ignores_what_is_no_record(reader, items, left);
    }
}

/// What is read by a list that knows the storage is what is read anew.
proof fn lemma_in_sync_after_read<T, V: VTable<T>>(
    list: ListView<T, V>,
    items: Seq<ItemView>,
    after: ListView<T, V>,
)
    requires
        list.wf(),
        list.has_numbers(),
        list.knows(items),
        list.in_sync(items),
        list.read_leads_to(items, after),
    ensures
        after.knows(items),
        after.in_sync(items),
{
    let k = list.seq.records.len();
    let scanned = list.after_scan(items);
    let data = scanned.hydrating(items);
    lemma_good_records_numbered(items);
    lemma_with_all_wf(SeqStateView::unscanned(k), good_records(items));
    assert(scanned.seq.records == SeqStateView::unscanned(k).with_all(good_records(items)).records);
    assert(data == newest_data(items, k));
    if after != list {
        let n = if after == list.after_read(items) {
            data.len() as int
        } else {
            choose|n: int|
                0 <= n <= data.len() && after.nodes == all_hydrated(
                    list.nodes,
                    #[trigger] data.take(n),
                )
        };
        assert(data.take(data.len() as int) =~= data);
        assert forall|i: int|
            0 <= i < after.nodes.len() && (
            #[trigger] after.nodes[i]).state is ValidNoWriteNeeded implies read_anew(
            after.nodes[i],
            items,
            k,
        ).value == after.nodes[i].value by {
            let node = list.nodes[i];
            assert(node.wf());
            if node.state is Initial {
                assert(first_body(data.take(n), node.key) is Some);
                lemma_first_body_stays(data, n, node.key);
            }
        }
    }
}

/// A complete write leaves all values in the storage.
proof fn lemma_in_sync_after_write<T, V: VTable<T>>(
    list: ListView<T, V>,
    items: Seq<ItemView>,
    left: Seq<ItemView>,
)
    requires
        list.wf(),
        list.ahead_of(items),
        list.knows(items),
        list.round_trips(),
        list.seq.next_seq is Some,
        list.unwritten(),
        appended(items, left, list.next_record()),
        list.read_back(left) is Some,
    ensures
        list.after_write(list.read_back(left)->0).knows(left),
        list.after_write(list.read_back(left)->0).in_sync(left),
{
    let k = list.seq.records.len();
    let r = list.read_back(left)->0;
    let after = list.after_write(r);
    let found = good_records(items);
    lemma_reads_back_its_own(list, items, left);
    lemma_good_records_numbered(items);
    lemma_with_all_wf(SeqStateView::unscanned(k), found);
    lemma_with_wf(list.seq, r);
    assert(found.push(r).drop_last() =~= found);
    let known = SeqStateView::unscanned(k).with_all(found);
    assert(list.seq.with(r).records == known.with(r).records);
    assert forall|i: int|
        0 <= i < after.nodes.len() && (
        #[trigger] after.nodes[i]).state is ValidNoWriteNeeded implies read_anew(
        after.nodes[i],
        left,
        k,
    ).value == after.nodes[i].value by {
        let node = list.nodes[i];
        let reader = lone_reader(node, k);
        lemma_lone_reader(node, left, k);
        lemma_index_of(list.nodes, node.key, i);
        law_read_gives_back_what_was_written(list, items, left, reader, node.key);
        assert(after.nodes[i] == node.flushed());
        assert(node.wf());
    }
}

/// A collection leaves all values in the storage that are in it.
proof fn lemma_in_sync_after_garbage<T, V: VTable<T>>(
    list: ListView<T, V>,
    items: Seq<ItemView>,
    left: Seq<ItemView>,
)
    requires
        list.wf(),
        list.seq.next_seq is Some,
        list.knows(items),
        list.in_sync(items),
        left == kept(items, list.seq) || (one_newest(items) && collected_in_part(
            items,
            list.seq,
            left,
        )),
    ensures
        list.in_sync(left),
{
    let k = list.seq.records.len();
    assert forall|i: int|
        0 <= i < list.nodes.len() && (
        #[trigger] list.nodes[i]).state is ValidNoWriteNeeded implies read_anew(
        list.nodes[i],
        left,
        k,
    ).value == list.nodes[i].value by {
        let node = list.nodes[i];
        let reader = lone_reader(node, k);
        lemma_lone_reader(node, items, k);
        lemma_lone_reader(node, left, k);
        if left == kept(items, list.seq) {
            law_garbage_changes_no_read(list, items, reader);
        } else {
            let n = choose|n: int|
                0 <= n <= items.len() && left == kept(#[trigger] items.take(n), list.seq)
                    + items.skip(n);
            lemma_newest_is_highest(list, items);
            law_interrupted_garbage_changes_no_read(list, items, n, reader);
        }
    }
}

/// The newest record that is known has the highest number.
proof fn lemma_newest_is_highest<T, V>(list: ListView<T, V>, items: Seq<ItemView>)
    requires
        list.wf(),
        list.knows(items),
        list.seq.next_seq is Some,
    ensures
        list.seq.highest() matches Some(a) ==> forall|c: RecordView| #[trigger]
            is_good_record(items, c) ==> c.seq <= a.seq,
{
    let found = good_records(items);
    lemma_good_records_numbered(items);
    law_newest_record_is_known(list.seq.records.len(), found, highest_start(items));
    if let Some(a) = list.seq.highest() {
        assert forall|c: RecordView| #[trigger] is_good_record(items, c) implies c.seq
            <= a.seq by {
            law_scan_finds_the_good_records(items, c);
            let i = choose|i: int| 0 <= i < found.len() && found[i] == c;
            assert(found[i].seq == c.seq);
        }
    }
}

/// Whether an operation that leads from `a` to `b` has gone wrong in none of the ways that
/// leave the list mistaken about the storage: no record has been written completely and yet
/// counted as failed, no collection has failed among records of one number, and the numbers
/// have not been used up.
pub open spec fn uneventful<T, V: VTable<T>>(a: Moment<T, V>, b: Moment<T, V>) -> bool {
    &&& a.list.has_numbers()
    &&& a.list.round_trips()
    &&& b.list == a.list.after_failed_write() ==> good_records(b.items) == good_records(a.items)
    &&& b.list == a.list.forgotten() && b.items != a.items ==> one_newest(a.items)
}

/// An operation leaves the values in the storage that need no write.
pub proof fn law_operation_stays_in_sync<T, V: VTable<T>>(a: Moment<T, V>, b: Moment<T, V>)
    requires
        a.list.wf(),
        a.list.ahead_of(a.items),
        a.list.knows(a.items),
        a.list.in_sync(a.items),
        a.leads_to(b),
        uneventful(a, b),
    ensures
        b.list.knows(b.items),
        b.list.in_sync(b.items),
{
    let list = a.list;
    let items = a.items;
    let left = b.items;
    if list.nodes_lead_to(b.list) && left == items {
    } else if b.list == list.forgotten() && left == items {
    } else if list.read_leads_to(items, b.list) && left == items {
        lemma_in_sync_after_read(list, items, b.list);
    } else if list.write_leads_to(items, b.list, left) {
        if appended(items, left, list.next_record()) && list.read_back(left) is Some && b.list
            == list.after_write(list.read_back(left)->0) {
            lemma_in_sync_after_write(list, items, left);
        } else if appended_in_part(items, left, list.next_record()) && b.list
            == list.after_failed_write() {
            lemma_written_in_part(list, items, left, list.next_record());
            lemma_in_sync_same_records(list, items, left);
        } else {
            lemma_written_in_part(list, items, left, list.next_record().take(1));
            lemma_in_sync_same_records(list, items, left);
        }
    } else if b.list == list.after_garbage(items) && left == kept(items, list.seq) {
        lemma_in_sync_after_garbage(list, items, left);
        lemma_good_records_numbered(left);
        lemma_with_all_wf(
            SeqStateView::unscanned(list.seq.records.len()),
            good_records(left),
        );
    } else {
        lemma_in_sync_after_garbage(list, items, left);
    }
}

/// Whether the moments are those of a new list without values and any operations, none of
/// which has gone wrong so that the list is mistaken about the storage.
pub open spec fn is_uneventful<T, V: VTable<T>>(history: Seq<Moment<T, V>>) -> bool {
    &&& is_history(history)
    &&& history[0].list.nodes.len() == 0
    &&& forall|i: int|
        0 < i < history.len() ==> uneventful(history[i - 1], #[trigger] history[i])
}

/// Whatever operations a list has gone through since it was new, as long as they have not left
/// it mistaken about the storage: the values that need no write are in the storage.
pub proof fn law_values_that_need_no_write_are_stored<T, V: VTable<T>>(
    history: Seq<Moment<T, V>>,
)
    requires
        is_uneventful(history),
    ensures
        history.last().list.knows(history.last().items),
        history.last().list.in_sync(history.last().items),
    decreases history.len(),
{
    if history.len() > 1 {
        let front = history.drop_last();
        assert forall|i: int| 0 < i < front.len() implies front[i - 1].leads_to(
            #[trigger] front[i],
        ) && uneventful(front[i - 1], front[i]) by {
            assert(front[i - 1] == history[i - 1] && front[i] == history[i]);
        }
        assert forall|i: int| 0 <= i < front.len() implies (#[trigger] front[i]).list.wf() by {
            assert(front[i] == history[i]);
        }
        law_lists_stay_ahead(front);
        law_values_that_need_no_write_are_stored(front);
        let n = history.len() - 1;
        assert(history[n - 1].leads_to(history[n]) && uneventful(history[n - 1], history[n]));
        assert(history[n - 1].list.wf());
        law_operation_stays_in_sync(history[n - 1], history[n]);
    }
}

/// Where one record is the newest, it does not matter how many records a scan keeps.
proof fn lemma_newest_data_same(items: Seq<ItemView>, j: nat, k: nat)
    requires
        j > 0,
        k > 0,
        one_newest(items),
    ensures
        newest_data(items, j) == newest_data(items, k),
{
    let found = good_records(items);
    let top = highest_start(items);
    lemma_good_records_numbered(items);
    law_newest_record_is_known(j, found, top);
    law_newest_record_is_known(k, found, top);
    if found.len() > 0 {
        let a = SeqStateView::unscanned(j).scanned(found, top).highest()->0;
        let b = SeqStateView::unscanned(k).scanned(found, top).highest()->0;
        law_scan_finds_the_good_records(items, a);
        law_scan_finds_the_good_records(items, b);
        assert(found.contains(a) && found.contains(b));
        assert forall|c: RecordView| #[trigger] is_good_record(items, c) implies c.seq
            <= a.seq by {
            law_scan_finds_the_good_records(items, c);
            let i = choose|i: int| 0 <= i < found.len() && found[i] == c;
            assert(found[i].seq == c.seq);
        }
        let ia = choose|i: int| 0 <= i < found.len() && found[i] == a;
        let ib = choose|i: int| 0 <= i < found.len() && found[i] == b;
        assert(found[ia].seq == a.seq && found[ib].seq == b.seq);
        assert(a == b);
    }
}

/// Once no value needs a write, which is so whenever a write has returned without an error, a
/// new list loads all values that the list holds.
pub proof fn law_new_list_loads_all_values<T, V: VTable<T>>(
    history: Seq<Moment<T, V>>,
    reader: ListView<T, V>,
    key: Seq<char>,
    default: T,
)
    requires
        is_uneventful(history),
        ({
            let Moment { list, items } = history.last();
            &&& forall|i: int|
                0 <= i < list.nodes.len() ==> !((#[trigger] list.nodes[i]).state is NeedsWrite)
            &&& has_key(list.nodes, key)
            &&& list.node(key).state.has_value()
            &&& list.node(key).vtable == reader.node(key).vtable
            &&& reader.seq.records.len() == list.seq.records.len() || one_newest(items)
        }),
        reader.wf(),
        reader.seq == SeqStateView::unscanned(reader.seq.records.len()),
        has_key(reader.nodes, key),
        reader.node(key).state is Initial,
    ensures
        ({
            let Moment { list, items } = history.last();
            &&& reader.after_scan(items).readable(items)
            &&& reader.after_read(items).attached(key, default).node(key).value == list.node(
                key,
            ).value
        }),
{
    let Moment { list, items } = history.last();
    let k = reader.seq.records.len();
    law_values_that_need_no_write_are_stored(history);
    assert(history[history.len() - 1].list.wf());
    law_first_read_succeeds(reader, items);
    lemma_attached(reader, items, key, default);
    let at = index_of(list.nodes, key);
    let node = list.nodes[at];
    assert(node.state is ValidNoWriteNeeded);
    assert(node.wf());
    if k != list.seq.records.len() {
        lemma_newest_data_same(items, k, list.seq.records.len());
    }
    assert(reader.nodes[index_of(reader.nodes, key)].wf());
    assert(reader.node(key) == NodeView::<T, V>::fresh(key, node.vtable));
    assert(reader.after_scan(items).hydrating(items) == newest_data(items, k));
    assert(reader.after_read(items).node(key) == read_anew(node, items, k));
}

/// What a node gets from a read is what a new node with its key gets in a new list, whatever the
/// other nodes hold, and whether the storage has been scanned before or not, as long as the list
/// knows it.
pub proof fn law_a_read_is_like_the_first<T, V: VTable<T>>(
    list: ListView<T, V>,
    items: Seq<ItemView>,
    i: int,
    reader: ListView<T, V>,
    at: int,
)
    requires
        list.wf(),
        list.has_numbers(),
        list.knows(items),
        0 <= i < list.nodes.len(),
        list.nodes[i].state is Initial,
        reader.seq == SeqStateView::unscanned(list.seq.records.len()),
        0 <= at < reader.nodes.len(),
        reader.nodes[at] == list.nodes[i],
    ensures
        list.after_read(items).nodes[i] == read_anew(
            list.nodes[i],
            items,
            list.seq.records.len(),
        ),
        list.after_read(items).nodes[i] == reader.after_read(items).nodes[at],
{
    let k = list.seq.records.len();
    lemma_good_records_numbered(items);
    lemma_with_all_wf(SeqStateView::unscanned(k), good_records(items));
    assert(list.after_scan(items).seq.records == SeqStateView::unscanned(k).with_all(
        good_records(items),
    ).records);
    assert(reader.after_scan(items).seq.records == SeqStateView::unscanned(k).with_all(
        good_records(items),
    ).records);
    assert(list.nodes[i].wf());
}

} // verus!
