//! Laws of the bytes that the operations count, and of what a collection takes and leaves.
use crate::laws_record::law_good_record_is_extractable;
use crate::laws_history::lemma_first_body_stays;
use crate::model::{collected_in_part, hydrated_in_part, kept, popped, ListView};
use crate::record::is_good_record;
use crate::seq_state::SeqStateView;
use crate::storage::{counted, total_len, ItemView};
use crate::storage_node::{all_hydrated, first_body, NodeView, State, VTable};
use vstd::multiset::Multiset;
use vstd::prelude::*;

verus! {

/// A count is exact as long as it fits, and does not wrap where it does not.
pub proof fn law_counts_are_exact(n: nat)
    ensures
        n <= usize::MAX ==> counted(n) == n,
        n > usize::MAX ==> counted(n) == usize::MAX,
{
}

/// Items that lie one behind the other take the sum of the bytes that each of them takes.
pub proof fn law_bytes_add_up(a: Seq<ItemView>, b: Seq<ItemView>)
    ensures
        total_len(a + b) == total_len(a) + total_len(b),
        a.len() == 0 ==> total_len(a) == 0,
        a.len() == 1 ==> total_len(a) == a[0].len,
    decreases b.len(),
{
    if a.len() == 1 {
        assert(total_len(a.drop_last()) == 0);
    }
    if b.len() == 0 {
        assert(a + b =~= a);
    } else {
        law_bytes_add_up(a, b.drop_last());
        assert((a + b).drop_last() =~= a + b.drop_last());
        assert((a + b).last() == b.last());
    }
}

/// A collection parts the items into those that it leaves and those that it takes, and loses
/// or doubles none: their numbers and their bytes add up to those from before.
pub proof fn law_a_collection_parts_the_items(items: Seq<ItemView>, s: SeqStateView)
    ensures
        kept(items, s).len() + popped(items, s).len() == items.len(),
        total_len(kept(items, s)) + total_len(popped(items, s)) == total_len(items),
        kept(items, s).to_multiset().add(popped(items, s).to_multiset()) == items.to_multiset(),
    decreases items.len(),
{
    broadcast use vstd::seq_lib::group_to_multiset_ensures;

    if items.len() == 0 {
        assert(items.to_multiset() =~= Multiset::empty());
        assert(kept(items, s).to_multiset().add(popped(items, s).to_multiset())
            =~= Multiset::empty());
    } else {
        let front = items.drop_last();
        let last = items.last();
        law_a_collection_parts_the_items(front, s);
        assert(items =~= front.push(last));
        assert(items.to_multiset() =~= front.to_multiset().insert(last));
        if kept(items, s) == kept(front, s).push(last) && popped(items, s) == popped(front, s) {
            assert(kept(items, s).drop_last() =~= kept(front, s));
            assert(kept(items, s).to_multiset() =~= kept(front, s).to_multiset().insert(last));
        } else {
            assert(popped(items, s).drop_last() =~= popped(front, s));
            assert(popped(items, s).to_multiset() =~= popped(front, s).to_multiset().insert(last));
        }
        assert(kept(items, s).to_multiset().add(popped(items, s).to_multiset())
            =~= items.to_multiset());
    }
}

/// A collection leaves an item exactly if it decodes and lies in one of the known records, both
/// ends included. It leaves the items in their order.
pub proof fn law_what_a_collection_leaves(items: Seq<ItemView>, s: SeqStateView, n: int)
    requires
        0 <= n < items.len(),
    ensures
        kept(items.take(0), s).len() == 0,
        items[n].elem is Some && (exists|i: int|
            0 <= i < s.records.len() && (#[trigger] s.records[i] matches Some(r) && r.start <= n
                <= r.end)) ==> kept(items.take(n + 1), s) == kept(items.take(n), s).push(items[n])
            && popped(items.take(n + 1), s) == popped(items.take(n), s),
        items[n].elem is None || (forall|i: int|
            0 <= i < s.records.len() ==> !(#[trigger] s.records[i] matches Some(r) && r.start <= n
                <= r.end)) ==> kept(items.take(n + 1), s) == kept(items.take(n), s) && popped(
            items.take(n + 1),
            s,
        ) == popped(items.take(n), s).push(items[n]),
        kept(items.take(items.len() as int), s) == kept(items, s),
        popped(items.take(items.len() as int), s) == popped(items, s),
{
    assert(items.take(n + 1).drop_last() =~= items.take(n));
    assert(items.take(n + 1).last() == items[n]);
    assert(items.take(items.len() as int) =~= items);
}

/// The items that a read goes over: all of them, where the storage has not been scanned, and
/// none, where it has; then those up to the end of the newest record, where one is known.
pub proof fn law_what_a_read_goes_over<T, V: VTable<T>>(list: ListView<T, V>, items: Seq<ItemView>)
    requires
        list.seq.records.len() > 0,
        list.seq.records[list.seq.records.len() - 1] matches Some(r) ==> is_good_record(items, r),
    ensures
        list.seq.next_seq is None ==> list.scan_pass(items) == items,
        list.seq.next_seq is Some ==> list.scan_pass(items).len() == 0,
        match list.seq.records[list.seq.records.len() - 1] {
            Some(r) => {
                &&& list.hydration_pass(items) == items.take(r.end + 1)
                &&& list.hydrating(items) == items.subrange(r.start + 1, r.end)
                &&& list.readable(items)
            },
            None => {
                &&& list.hydration_pass(items).len() == 0
                &&& list.hydrating(items).len() == 0
                &&& list.readable(items)
            },
        },
{
    if let Some(r) = list.seq.records[list.seq.records.len() - 1] {
        law_good_record_is_extractable(items, r);
    }
}

/// A collection that was interrupted has lost nothing that a complete one would have left.
pub proof fn law_an_interrupted_collection_loses_nothing(
    items: Seq<ItemView>,
    s: SeqStateView,
    left: Seq<ItemView>,
)
    requires
        collected_in_part(items, s, left),
    ensures
        kept(items, s).to_multiset().subset_of(left.to_multiset()),
        left.to_multiset().subset_of(items.to_multiset()),
        total_len(left) <= total_len(items),
{
    broadcast use vstd::seq_lib::group_to_multiset_ensures;

    let n = choose|n: int|
        0 <= n <= items.len() && left == kept(#[trigger] items.take(n), s) + items.skip(n);
    let front = items.take(n);
    let rest = items.skip(n);
    assert(items =~= front + rest);
    law_a_collection_parts_the_items(front, s);
    vstd::seq_lib::lemma_multiset_commutative(kept(front, s), rest);
    vstd::seq_lib::lemma_multiset_commutative(front, rest);
    law_bytes_add_up(kept(front, s), rest);
    law_bytes_add_up(front, rest);
    lemma_kept_of_more(items, s, n);
    assert(items.take(items.len() as int) =~= items);
}

/// What is kept of more items is what was kept, and some of those that have been added.
proof fn lemma_kept_of_more(items: Seq<ItemView>, s: SeqStateView, n: int)
    requires
        0 <= n <= items.len(),
    ensures
        kept(items, s).to_multiset().subset_of(
            kept(items.take(n), s).to_multiset().add(items.skip(n).to_multiset()),
        ),
    decreases items.len() - n,
{
    broadcast use vstd::seq_lib::group_to_multiset_ensures;

    if n == items.len() {
        assert(items.take(n) =~= items);
    } else {
        lemma_kept_of_more(items, s, n + 1);
        assert(items.take(n + 1).drop_last() =~= items.take(n));
        assert(items.take(n + 1).last() == items[n]);
        assert(items.skip(n).remove(0) =~= items.skip(n + 1));
        assert(items.skip(n)[0] == items[n]);
        assert(items.skip(n).contains(items[n]));
        assert(items.skip(n).to_multiset() =~= items.skip(n + 1).to_multiset().insert(items[n]));
    }
}

/// A read that was interrupted has left each node as it was, or as the whole read would have.
pub proof fn law_an_interrupted_read_mixes_nothing_up<T, V: VTable<T>>(
    before: Seq<NodeView<T, V>>,
    data: Seq<ItemView>,
    after: Seq<NodeView<T, V>>,
    i: int,
)
    requires
        hydrated_in_part(before, data, after),
        0 <= i < before.len(),
    ensures
        after.len() == before.len(),
        after[i] == before[i] || after[i] == all_hydrated(before, data)[i],
        before[i].state != State::Initial ==> after[i] == before[i],
{
    let k = choose|k: int|
        0 <= k <= data.len() && after == all_hydrated(before, #[trigger] data.take(k));
    let key = before[i].key;
    if first_body(data.take(k), key) is Some {
        lemma_first_body_stays(data, k, key);
    }
}

/// A collection ends with a scan of what it has left: the list knows the records that a list
/// which knew nothing would find, and goes on with the higher one of the number that this list
/// would take and its own.
pub proof fn law_a_collection_ends_with_a_scan<T, V: VTable<T>>(
    list: ListView<T, V>,
    items: Seq<ItemView>,
    other: ListView<T, V>,
)
    requires
        other.seq.next_seq is None,
        other.seq.records == list.forgotten().seq.records,
        !other.seq.needs_gc,
    ensures
        ({
            let scanned = other.after_scan(kept(items, list.seq)).seq;
            let after = list.after_garbage(items).seq;
            &&& after.records == scanned.records
            &&& after.next_seq is None <==> scanned.next_seq is None
            &&& after.next_seq matches Some(next) ==> next >= scanned.next_seq->0 && (
            list.seq.next_seq matches Some(own) ==> next >= own) && (next == scanned.next_seq->0
                || list.seq.next_seq == Some(next))
        }),
{
    assert(other.seq == list.forgotten().seq);
}

} // verus!
