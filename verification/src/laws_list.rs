//! Laws of a list and a storage: what a read gives back of a write, and what stays as it is.
use crate::elem::ElemView;
use crate::extract::extracted;
use crate::laws_record::{
    law_complete_write_is_found, law_complete_write_is_read_back, law_good_record_is_extractable,
    law_torn_write_is_ignored, law_written_values_are_extracted, lemma_all_data,
};
use crate::laws_seq::{law_newest_record_is_known, lemma_remembers};
use crate::model::{appended, lemma_unwritten_has_data, ListView};
use crate::record::{
    good_records, highest_start, is_good_record, law_scan_finds_the_good_records,
    lemma_good_records_numbered, lemma_highest_start, numbers_below, RecordView,
};
use crate::seq_state::{
    below, lemma_below, lemma_with_all_wf, lemma_with_wf, next_after, slot_seq, SeqStateView,
};
use crate::storage::ItemView;
use crate::storage_node::{distinct_keys, has_key, index_of, lemma_index_of, NodeView, VTable};
use crate::verify_record::{first_start, lemma_first_start};
use crate::write_record::data_elems;
use vstd::prelude::*;
use vstd::utf8::encode_utf8;

verus! {

impl<T, V> ListView<T, V> {
    /// Whether the next number is above those of all good records.
    pub open spec fn ahead_of(self, items: Seq<ItemView>) -> bool {
        self.seq.next_seq matches Some(next) ==> forall|r: RecordView| #[trigger]
            is_good_record(items, r) ==> r.seq < next
    }

    /// Whether the list, if it has scanned the storage, knows the records that a new scan would
    /// find.
    pub open spec fn knows(self, items: Seq<ItemView>) -> bool {
        self.seq.next_seq is Some ==> self.seq.records == SeqStateView::unscanned(
            self.seq.records.len(),
        ).with_all(good_records(items)).records
    }

    /// Whether the list, if it has scanned the storage, knows the records that a new scan would
    /// find, and the next number is above those of all Start elements.
    pub open spec fn current(self, items: Seq<ItemView>) -> bool {
        self.seq.next_seq matches Some(next) ==> {
            &&& self.seq.records == SeqStateView::unscanned(self.seq.records.len()).with_all(
                good_records(items),
            ).records
            &&& numbers_below(items, next)
        }
    }
}

/// The keys are no longer than what can be addressed.
pub open spec fn addressable_keys<T, V>(nodes: Seq<NodeView<T, V>>) -> bool {
    forall|i: int|
        0 <= i < nodes.len() ==> encode_utf8((#[trigger] nodes[i]).key).len()
            < 0x1_0000_0000_0000_0000
}

/// A list that has just scanned a storage knows what is in it.
pub proof fn law_scan_is_current<T, V: VTable<T>>(list: ListView<T, V>, items: Seq<ItemView>)
    requires
        list.wf(),
        list.seq == SeqStateView::unscanned(list.seq.records.len()),
    ensures
        list.after_scan(items).current(items),
        list.after_read(items).current(items),
{
    lemma_good_records_numbered(items);
    lemma_with_all_wf(list.seq, good_records(items));
    law_scanned_number_is_unused(list, items);
}

/// After a scan, whatever was known before, the next number is above those of all Start
/// elements: no record, complete or not, has it.
pub proof fn law_scanned_number_is_unused<T, V: VTable<T>>(
    list: ListView<T, V>,
    items: Seq<ItemView>,
)
    requires
        list.wf(),
        list.seq.next_seq is None,
    ensures
        list.after_scan(items).seq.next_seq matches Some(next) ==> numbers_below(items, next)
            && first_start(items, next) is None,
{
    if let Some(next) = list.after_scan(items).seq.next_seq {
        lemma_highest_start(items, next);
        lemma_unused(items, next);
    }
}

/// A number above those of all Start elements is that of none.
pub proof fn lemma_unused(items: Seq<ItemView>, seq: u32)
    requires
        numbers_below(items, seq),
    ensures
        first_start(items, seq) is None,
{
    lemma_first_start(items, seq);
    if let Some(at) = first_start(items, seq) {
        assert(items[at].elem == Some(ElemView::Start { seq }));
    }
}

/// The first read of a storage that does not fail succeeds, whatever the storage holds.
pub proof fn law_first_read_succeeds<T, V: VTable<T>>(list: ListView<T, V>, items: Seq<ItemView>)
    requires
        list.wf(),
        list.seq == SeqStateView::unscanned(list.seq.records.len()),
    ensures
        list.after_scan(items).readable(items),
{
    let found = good_records(items);
    lemma_good_records_numbered(items);
    law_newest_record_is_known(list.seq.records.len(), found, highest_start(items));
    if let Some(r) = list.after_scan(items).seq.highest() {
        law_scan_finds_the_good_records(items, r);
        law_good_record_is_extractable(items, r);
    }
}

/// A list that is current and writes a record completely is current afterwards.
pub proof fn law_write_keeps_current<T, V: VTable<T>>(
    list: ListView<T, V>,
    before: Seq<ItemView>,
    after: Seq<ItemView>,
)
    requires
        list.wf(),
        list.current(before),
        list.seq.next_seq is Some,
        list.unwritten(),
        appended(before, after, list.next_record()),
    ensures
        list.read_back(after) is Some,
        list.after_write(list.read_back(after)->0).current(after),
{
    let seq = list.seq.next_seq->0;
    let n = list.seq.records.len();
    assert(slot_seq(list.seq.records[n - 1]) < seq);
    lemma_unwritten_has_data(list);
    lemma_unused(before, seq);
    lemma_numbers_after_write(before, after, list);
    law_complete_write_is_read_back(before, after, list.nodes, seq);
    law_complete_write_is_found(before, after, list.nodes, seq);
    let r = RecordView { seq, start: before.len() as int, end: after.len() - 1 };
    let found = good_records(before);
    assert(found.push(r).drop_last() =~= found);
    lemma_good_records_numbered(before);
    lemma_remembers(n, found);
    let known = SeqStateView::unscanned(n).with_all(found);
    lemma_with_wf(known, r);
    assert(list.seq.with(r).records == known.with(r).records);
    lemma_with_wf(list.seq, r);
    let records = list.seq.with(r).records;
    let at = below(list.seq.records.drop_first(), seq);
    lemma_below(list.seq.records.drop_first(), seq);
    assert(records[at] == Some(r));
    assert(slot_seq(records[at]) <= slot_seq(records[n - 1]));
    if at < n - 1 {
        assert(records[n - 1] == list.seq.records[n - 1]);
    }
}

/// A complete write puts its number behind those of all Start elements.
proof fn lemma_numbers_after_write<T, V: VTable<T>>(
    before: Seq<ItemView>,
    after: Seq<ItemView>,
    list: ListView<T, V>,
)
    requires
        list.seq.next_seq is Some,
        numbers_below(before, list.seq.next_seq->0),
        appended(before, after, list.next_record()),
    ensures
        next_after(list.seq.next_seq->0) matches Some(next) ==> numbers_below(after, next),
{
    let seq = list.seq.next_seq->0;
    let elems = list.next_record();
    if let Some(next) = next_after(seq) {
        assert forall|i: int| 0 <= i < after.len() implies ((#[trigger] after[i]).elem matches Some(
            ElemView::Start { seq: number },
        ) ==> number < next) by {
            if i < before.len() {
                assert(after[i] == before[i]);
            } else {
                let k = i - before.len();
                assert(after[i].elem == Some(elems[k]));
                if 0 < k < elems.len() - 1 {
                    assert(elems[k] == data_elems(list.nodes)[k - 1]);
                    lemma_all_data(list.nodes, k - 1);
                }
            }
        }
    }
}

/// Whether the reader, which reads the storage for the first time, gets for the key the value
/// that the writer holds for it, as far as it can be decoded, and nothing where the writer
/// holds none.
pub open spec fn gives_back<T, V: VTable<T>>(
    writer: ListView<T, V>,
    items: Seq<ItemView>,
    reader: ListView<T, V>,
    key: Seq<char>,
) -> bool {
    let node = reader.after_read(items).node(key);
    let written = writer.node(key);
    let value = written.vtable.encoded(written.value->0)->0;
    &&& reader.after_scan(items).readable(items)
    &&& if has_key(writer.nodes, key) && written.state.has_value() {
        match reader.node(key).vtable.decoded(value) {
            Some(t) => node.state is ValidNoWriteNeeded && node.value == Some(t),
            None => node.state is NonResident && node.value is None,
        }
    } else {
        node.state is NonResident && node.value is None
    }
}

/// What a read gives back of a write: a list that reads the storage for the first time after
/// another list has written its record completely, under a number above those of all good
/// records, gets for each key the value that was written for it, as far as it can be decoded,
/// and nothing for a key that was not written.
pub proof fn law_read_gives_back_what_was_written<T, V: VTable<T>>(
    writer: ListView<T, V>,
    before: Seq<ItemView>,
    after: Seq<ItemView>,
    reader: ListView<T, V>,
    key: Seq<char>,
)
    requires
        writer.wf(),
        writer.seq.next_seq is Some,
        writer.unwritten(),
        writer.ahead_of(before),
        addressable_keys(writer.nodes),
        appended(before, after, writer.next_record()),
        reader.wf(),
        reader.seq == SeqStateView::unscanned(reader.seq.records.len()),
        has_key(reader.nodes, key),
        reader.node(key).state is Initial,
    ensures
        gives_back(writer, after, reader, key),
{
    let seq = writer.seq.next_seq->0;
    let wn = writer.seq.records.len();
    assert(slot_seq(writer.seq.records[wn - 1]) < seq);
    let r = RecordView { seq, start: before.len() as int, end: after.len() - 1 };
    lemma_unwritten_has_data(writer);
    law_complete_write_is_found(before, after, writer.nodes, seq);
    let found = good_records(after);
    let old_found = good_records(before);
    lemma_good_records_numbered(after);
    law_first_read_succeeds(reader, after);
    law_newest_record_is_known(reader.seq.records.len(), found, highest_start(after));
    // the record that was written is the newest
    let newest = reader.after_scan(after).seq.highest()->0;
    assert(found[old_found.len() as int] == r);
    assert(newest == r) by {
        let i = choose|i: int| 0 <= i < found.len() && found[i] == newest;
        if i < old_found.len() {
            assert(old_found[i] == newest);
            assert(old_found.contains(newest));
            law_scan_finds_the_good_records(before, newest);
            assert(newest.seq < seq);
        }
    }
    law_written_values_are_extracted(before, after, writer.nodes, seq, key);
    // the node is where it was
    let at = index_of(reader.nodes, key);
    let nodes = reader.after_read(after).nodes;
    let data = extracted(after, r);
    assert(nodes[at] == reader.nodes[at].hydrated(data).settled());
    assert forall|i: int, j: int| 0 <= i < j < nodes.len() implies (#[trigger] nodes[i]).key != (
    #[trigger] nodes[j]).key by {
        assert(reader.nodes[i].key != reader.nodes[j].key);
    }
    lemma_index_of(nodes, key, at);
    assert(reader.nodes[at].wf());
}

/// A write that has failed before its record was complete leaves the list current, whatever it
/// has left behind: some of the elements, and perhaps something that does not decode. Where
/// nothing that decodes has been left behind, the number can be used again.
pub proof fn law_failed_write_keeps_current<T, V: VTable<T>>(
    list: ListView<T, V>,
    before: Seq<ItemView>,
    after: Seq<ItemView>,
    torn: Seq<ItemView>,
    n: int,
)
    requires
        list.wf(),
        list.current(before),
        list.seq.next_seq is Some,
        0 <= n < list.next_record().len(),
        appended(before, after, list.next_record().take(n)),
        forall|i: int| 0 <= i < torn.len() ==> (#[trigger] torn[i]).elem is None,
    ensures
        list.after_failed_write().current(after + torn),
        n == 0 ==> list.current(after + torn),
{
    let seq = list.seq.next_seq->0;
    let elems = list.next_record();
    let failed = after + torn;
    law_torn_write_is_ignored(before, after, torn, list.nodes, seq, n);
    assert forall|i: int| 0 <= i < failed.len() implies ((#[trigger] failed[i]).elem matches Some(
        ElemView::Start { seq: number },
    ) ==> number < seq || (n > 0 && number == seq)) by {
        if i < before.len() {
            assert(failed[i] == after[i]);
            assert(after[i] == before[i]);
        } else if i < after.len() {
            let k = i - before.len();
            assert(failed[i] == after[i]);
            assert(after[i].elem == Some(elems.take(n)[k]));
            if k > 0 {
                assert(elems[k] == data_elems(list.nodes)[k - 1]);
                lemma_all_data(list.nodes, k - 1);
            }
        } else {
            assert(failed[i] == torn[i - after.len()]);
        }
    }
}

/// A write that has failed, in whatever way, does not hold up the next attempt: where the
/// storage has no Start element with a number above that of the failed attempt, a complete
/// second attempt is read back, and what it has written is what is read.
pub proof fn law_next_attempt_succeeds<T, V: VTable<T>>(
    list: ListView<T, V>,
    failed: Seq<ItemView>,
    after: Seq<ItemView>,
    reader: ListView<T, V>,
    key: Seq<char>,
)
    requires
        list.wf(),
        list.seq.next_seq is Some,
        list.unwritten(),
        list.after_failed_write().seq.next_seq is Some,
        numbers_below(failed, list.after_failed_write().seq.next_seq->0),
        addressable_keys(list.nodes),
        appended(failed, after, list.after_failed_write().next_record()),
        reader.wf(),
        reader.seq == SeqStateView::unscanned(reader.seq.records.len()),
        has_key(reader.nodes, key),
        reader.node(key).state is Initial,
    ensures
        list.after_failed_write().read_back(after) is Some,
        gives_back(list, after, reader, key),
{
    let next = list.after_failed_write();
    let seq = next.seq.next_seq->0;
    lemma_unwritten_has_data(list);
    lemma_unused(failed, seq);
    law_complete_write_is_read_back(failed, after, next.nodes, seq);
    assert forall|r: RecordView| #[trigger] is_good_record(failed, r) implies r.seq < seq by {
        assert(failed[r.start].elem == Some(ElemView::Start { seq: r.seq }));
    }
    law_read_gives_back_what_was_written(next, failed, after, reader, key);
}

/// Items behind the good records that make no new one change nothing of what is read: an
/// interrupted write reads as if it had not been begun. Only the next number may be another,
/// as that of an interrupted record is not used again.
pub proof fn law_read_ignores_what_is_no_record<T, V: VTable<T>>(
    reader: ListView<T, V>,
    before: Seq<ItemView>,
    after: Seq<ItemView>,
)
    requires
        reader.wf(),
        reader.seq == SeqStateView::unscanned(reader.seq.records.len()),
        before.is_prefix_of(after),
        good_records(after) == good_records(before),
    ensures
        reader.after_read(after).nodes == reader.after_read(before).nodes,
        reader.after_read(after).seq == (SeqStateView {
            next_seq: reader.after_read(after).seq.next_seq,
            ..reader.after_read(before).seq
        }),
{
    let found = good_records(before);
    lemma_good_records_numbered(before);
    law_newest_record_is_known(reader.seq.records.len(), found, highest_start(before));
    law_newest_record_is_known(reader.seq.records.len(), found, highest_start(after));
    if let Some(r) = reader.after_scan(before).seq.highest() {
        law_scan_finds_the_good_records(before, r);
        law_scan_finds_the_good_records(after, r);
        law_good_record_is_extractable(before, r);
        law_good_record_is_extractable(after, r);
        assert(before.subrange(r.start + 1, r.end) =~= after.subrange(r.start + 1, r.end));
    }
}

/// Reading never changes a node that holds a value, and reads and writes move the state of a
/// node only along the edges of the diagram. Once a node holds a value, it holds one as long
/// as it is attached.
pub proof fn law_states_follow_the_diagram<T, V: VTable<T>>(
    node: NodeView<T, V>,
    items: Seq<ItemView>,
)
    requires
        node.wf(),
    ensures
        node.state.has_value() ==> node.hydrated(items).settled() == node,
        node.state.leads_to(node.hydrated(items).state),
        node.state.leads_to(node.hydrated(items).settled().state),
        node.hydrated(items).wf(),
        node.settled().wf(),
        node.state.leads_to(node.flushed().state),
        node.flushed().wf(),
        node.flushed().value == node.value,
        node.flushed().state.has_value() <==> node.state.has_value(),
        !(node.hydrated(items).settled().state is Initial),
{
}

proof fn lemma_same_keys<T, V>(
    before: Seq<NodeView<T, V>>,
    after: Seq<NodeView<T, V>>,
    key: Seq<char>,
)
    requires
        distinct_keys(before),
        has_key(before, key),
        after.len() == before.len(),
        forall|i: int| 0 <= i < before.len() ==> (#[trigger] after[i]).key == before[i].key,
    ensures
        has_key(after, key),
        index_of(after, key) == index_of(before, key),
{
    let at = index_of(before, key);
    assert forall|i: int, j: int| 0 <= i < j < after.len() implies (#[trigger] after[i]).key != (
    #[trigger] after[j]).key by {
        assert(before[i].key != before[j].key);
    }
    lemma_index_of(after, key, at);
}

/// A value stays what it is while its node is attached, until it is replaced: no read, write
/// or collection changes it, whether they succeed or fail, nor does forgetting what is known
/// of the storage.
pub proof fn law_values_stay<T, V: VTable<T>>(
    list: ListView<T, V>,
    items: Seq<ItemView>,
    r: RecordView,
    key: Seq<char>,
)
    requires
        list.wf(),
        has_key(list.nodes, key),
        list.node(key).state.has_value(),
    ensures
        has_key(list.after_read(items).nodes, key),
        list.after_read(items).node(key) == list.node(key),
        has_key(list.after_write(r).nodes, key),
        list.after_write(r).node(key).value == list.node(key).value,
        list.after_failed_write().node(key) == list.node(key),
        list.after_garbage(items).node(key) == list.node(key),
        list.forgotten().node(key) == list.node(key),
{
    let at = index_of(list.nodes, key);
    lemma_same_keys(list.nodes, list.after_read(items).nodes, key);
    lemma_same_keys(list.nodes, list.after_write(r).nodes, key);
    assert(list.nodes[at].wf());
    assert(list.after_read(items).nodes[at] == list.nodes[at]);
}

/// After a write has succeeded and garbage has been collected, there is nothing to write,
/// until a value is replaced.
pub proof fn law_nothing_to_write_after_write<T, V: VTable<T>>(
    list: ListView<T, V>,
    before: Seq<ItemView>,
    after: Seq<ItemView>,
)
    requires
        list.wf(),
        list.current(before),
        list.refused() is None,
        list.unwritten(),
        appended(before, after, list.next_record()),
    ensures
        ({
            let written = list.after_write(list.read_back(after)->0);
            &&& list.read_back(after) is Some
            &&& written.seq.highest() is Some
            &&& forall|i: int|
                0 <= i < written.nodes.len() ==> !((#[trigger] written.nodes[i]).state
                    is NeedsWrite) && !(written.nodes[i].state is Initial)
            &&& !written.unwritten()
            &&& written.seq.next_seq is Some ==> written.refused() == Some(
                crate::error::Error::NeedsGarbageCollect,
            )
        }),
{
    let seq = list.seq.next_seq->0;
    let n = list.seq.records.len();
    assert(slot_seq(list.seq.records[n - 1]) < seq);
    assert(slot_seq(list.seq.records[0]) < seq);
    lemma_unwritten_has_data(list);
    lemma_unused(before, seq);
    law_complete_write_is_read_back(before, after, list.nodes, seq);
    let r = list.read_back(after)->0;
    lemma_with_wf(list.seq, r);
    let written = list.after_write(r);
    assert forall|i: int| 0 <= i < written.nodes.len() implies !((
    #[trigger] written.nodes[i]).state is NeedsWrite) && !(written.nodes[i].state is Initial) by {
        assert(written.nodes[i] == list.nodes[i].flushed());
        assert(!(list.nodes[i].state is Initial));
    }
}

} // verus!
