//! Laws of garbage collection: it removes nothing that a read could give.
use crate::elem::ElemView;
use crate::extract::extracted;
use crate::laws_list::{law_write_keeps_current, lemma_unused};
use crate::laws_record::law_good_record_is_extractable;
use crate::laws_seq::{law_newest_record_is_known, lemma_remembers};
use crate::model::{appended, kept, ListView};
use crate::record::{
    good_records, highest_start, is_data, is_good_record, law_scan_finds_the_good_records,
    lemma_good_record_prefix, lemma_good_records_numbered, lemma_highest_start,
    lemma_open_start_unique, numbers_below, record_closed_by_last, RecordView,
};
use crate::seq_state::{below, lemma_below, lemma_scanned_wf, slot_seq, SeqStateView};
use crate::storage::ItemView;
use crate::storage_node::VTable;
use crate::verify_record::first_start;
use vstd::prelude::*;

verus! {

/// How many of the items before `index` survive a collection: where the item at `index` is
/// afterwards, if it survives.
pub open spec fn new_index(items: Seq<ItemView>, s: SeqStateView, index: int) -> int {
    kept(items.take(index), s).len() as int
}

/// Where a record is after a collection, if it survives.
pub open spec fn moved(items: Seq<ItemView>, s: SeqStateView, r: RecordView) -> RecordView {
    RecordView {
        seq: r.seq,
        start: new_index(items, s, r.start),
        end: new_index(items, s, r.end),
    }
}

/// What a slot holds after a collection.
pub open spec fn moved_slot(
    items: Seq<ItemView>,
    s: SeqStateView,
    slot: Option<RecordView>,
) -> Option<RecordView> {
    match slot {
        Some(r) => Some(moved(items, s, r)),
        None => None,
    }
}

/// The records among `found` that survive a collection, where they are afterwards.
pub open spec fn moved_records(
    items: Seq<ItemView>,
    s: SeqStateView,
    found: Seq<RecordView>,
) -> Seq<RecordView>
    decreases found.len(),
{
    if found.len() == 0 {
        Seq::empty()
    } else if s.records.contains(Some(found.last())) {
        moved_records(items, s, found.drop_last()).push(moved(items, s, found.last()))
    } else {
        moved_records(items, s, found.drop_last())
    }
}

/// The slots whose records survive a collection, with the records where they are afterwards.
spec fn moved_slots(
    items: Seq<ItemView>,
    s: SeqStateView,
    slots: Seq<Option<RecordView>>,
) -> Seq<Option<RecordView>>
    decreases slots.len(),
{
    if slots.len() == 0 {
        Seq::empty()
    } else if slots.last() is Some && s.records.contains(slots.last()) {
        moved_slots(items, s, slots.drop_last()).push(moved_slot(items, s, slots.last()))
    } else {
        moved_slots(items, s, slots.drop_last())
    }
}

/// The records that are known are good ones.
pub open spec fn all_good(items: Seq<ItemView>, s: SeqStateView) -> bool {
    forall|r: RecordView| #[trigger]
        s.records.contains(Some(r)) ==> is_good_record(items, r)
}

/// The item at an index within a known good record survives.
proof fn lemma_survives(items: Seq<ItemView>, s: SeqStateView, r: RecordView, n: int)
    requires
        is_good_record(items, r),
        s.records.contains(Some(r)),
        r.start <= n <= r.end,
    ensures
        items[n].elem is Some,
        s.keeps(n),
        kept(items.take(n + 1), s) == kept(items.take(n), s).push(items[n]),
{
    let i = choose|i: int| 0 <= i < s.records.len() && s.records[i] == Some(r);
    assert(s.records[i] matches Some(x) && x.start <= n <= x.end);
    if r.start < n < r.end {
        assert(is_data(items[n]));
    }
    assert(items.take(n + 1).drop_last() =~= items.take(n));
    assert(items.take(n + 1).last() == items[n]);
}

/// The items of a known good record stay together.
pub proof fn lemma_block(items: Seq<ItemView>, s: SeqStateView, r: RecordView, n: int)
    requires
        is_good_record(items, r),
        s.records.contains(Some(r)),
        r.start <= n <= r.end + 1,
    ensures
        ({
            let left = kept(items.take(n), s);
            let start = new_index(items, s, r.start);
            &&& left.len() == start + (n - r.start)
            &&& left.subrange(start, left.len() as int) == items.subrange(r.start, n)
        }),
    decreases n,
{
    let start = new_index(items, s, r.start);
    if n > r.start {
        lemma_block(items, s, r, n - 1);
        lemma_survives(items, s, r, n - 1);
        let front = kept(items.take(n - 1), s);
        let left = kept(items.take(n), s);
        assert(left == front.push(items[n - 1]));
        assert(left.subrange(start, left.len() as int) =~= front.subrange(
            start,
            front.len() as int,
        ).push(items[n - 1]));
        assert(items.subrange(r.start, n) =~= items.subrange(r.start, n - 1).push(items[n - 1]));
    } else {
        assert(kept(items.take(n), s).subrange(start, start) =~= items.subrange(r.start, n));
    }
}

/// A known good record is a good record after the collection too, with the same data.
pub proof fn lemma_moved_is_good(items: Seq<ItemView>, s: SeqStateView, r: RecordView, n: int)
    requires
        is_good_record(items, r),
        s.records.contains(Some(r)),
        r.end < n <= items.len(),
    ensures
        is_good_record(kept(items.take(n), s), moved(items, s, r)),
        kept(items.take(n), s).subrange(
            moved(items, s, r).start + 1,
            moved(items, s, r).end,
        ) == items.subrange(r.start + 1, r.end),
    decreases n,
{
    let to = moved(items, s, r);
    let left = kept(items.take(n), s);
    if n == r.end + 1 {
        lemma_block(items, s, r, r.end);
        lemma_block(items, s, r, n);
        lemma_survives(items, s, r, r.end);
        let here = left.subrange(to.start, left.len() as int);
        let there = items.subrange(r.start, n);
        assert(here == there);
        assert(left[to.start] == here[0] && here[0] == there[0]);
        assert(left[to.end] == here[r.end - r.start]);
        assert(left.subrange(to.start + 1, to.end) =~= items.subrange(r.start + 1, r.end)) by {
            assert forall|i: int| 0 <= i < r.end - r.start - 1 implies left.subrange(
                to.start + 1,
                to.end,
            )[i] == #[trigger] items.subrange(r.start + 1, r.end)[i] by {
                assert(left[to.start + 1 + i] == here[1 + i]);
                assert(there[1 + i] == items[r.start + 1 + i]);
            }
        }
        assert forall|k: int| to.start < k < to.end implies is_data(#[trigger] left[k]) by {
            assert(left[k] == here[k - to.start]);
            assert(there[k - to.start] == items[r.start + (k - to.start)]);
            assert(is_data(items[r.start + (k - to.start)]));
        }
    } else {
        lemma_moved_is_good(items, s, r, n - 1);
        let front = kept(items.take(n - 1), s);
        assert(items.take(n).drop_last() =~= items.take(n - 1));
        if left != front {
            assert(left == front.push(items.take(n).last()));
            assert(left.take(front.len() as int) =~= front);
            lemma_good_record_prefix(left, front.len() as int, to);
            assert(left.subrange(to.start + 1, to.end) =~= front.subrange(to.start + 1, to.end));
        }
    }
}

/// Where the item at an index survives, it belongs to a known record.
pub proof fn lemma_kept_by(s: SeqStateView, n: int) -> (r: RecordView)
    requires
        s.keeps(n),
    ensures
        s.records.contains(Some(r)),
        r.start <= n <= r.end,
{
    let i = choose|i: int|
        0 <= i < s.records.len() && (#[trigger] s.records[i] matches Some(r) && r.start <= n
            <= r.end);
    assert(s.records[i] == Some(s.records[i]->0));
    s.records[i]->0
}

/// A scan after the collection finds the known records, and no others.
pub proof fn lemma_left_records(items: Seq<ItemView>, s: SeqStateView, n: int)
    requires
        0 <= n <= items.len(),
        all_good(items, s),
    ensures
        good_records(kept(items.take(n), s)) == moved_records(
            items,
            s,
            good_records(items.take(n)),
        ),
    decreases n,
{
    let now = items.take(n);
    if n > 0 {
        lemma_left_records(items, s, n - 1);
        let then = items.take(n - 1);
        let front = kept(then, s);
        let left = kept(now, s);
        let last = items[n - 1];
        assert(now.drop_last() =~= then);
        assert(now.last() == last);
        if last.elem is Some && s.keeps(n - 1) {
            let r = lemma_kept_by(s, n - 1);
            let to = moved(items, s, r);
            assert(is_good_record(items, r));
            assert(left == front.push(last));
            assert(left.drop_last() =~= front);
            if n - 1 == r.end {
                // the record is complete, here and there
                lemma_good_record_prefix(items, n, r);
                assert forall|k: int| r.start < k < then.len() implies is_data(
                    #[trigger] then[k],
                ) by {
                    assert(is_data(items[k]));
                }
                lemma_open_start_unique(then, r.start);
                assert(record_closed_by_last(now) == Some(r));
                assert(good_records(now).drop_last() =~= good_records(then));
                lemma_moved_is_good(items, s, r, n);
                lemma_block(items, s, r, n - 1);
                assert(to.end == front.len());
                assert forall|k: int| to.start < k < front.len() implies is_data(
                    #[trigger] front[k],
                ) by {
                    assert(is_data(left[k]));
                }
                assert(front[to.start] == left[to.start]);
                lemma_open_start_unique(front, to.start);
                assert(record_closed_by_last(left) == Some(to));
            } else {
                if n - 1 > r.start {
                    assert(is_data(items[n - 1]));
                }
                assert(record_closed_by_last(now) is None);
                assert(record_closed_by_last(left) is None);
            }
        } else {
            assert(left == front);
            if record_closed_by_last(now) is Some {
                let r = record_closed_by_last(now)->0;
                assert(is_good_record(now, r));
                lemma_good_record_prefix(items, n, r);
                if s.records.contains(Some(r)) {
                    lemma_survives(items, s, r, n - 1);
                }
                assert(good_records(now).drop_last() =~= good_records(then));
                assert(good_records(now).last() == r);
            }
        }
    } else {
        assert(now =~= Seq::<ItemView>::empty());
    }
}

/// A surviving record is one of the known ones that has moved.
pub proof fn lemma_moved_records_known(
    items: Seq<ItemView>,
    s: SeqStateView,
    found: Seq<RecordView>,
    q: RecordView,
) -> (r: RecordView)
    requires
        moved_records(items, s, found).contains(q),
    ensures
        found.contains(r),
        s.records.contains(Some(r)),
        q == moved(items, s, r),
    decreases found.len(),
{
    let all = moved_records(items, s, found);
    let i = choose|i: int| 0 <= i < all.len() && all[i] == q;
    let front = found.drop_last();
    let most = moved_records(items, s, front);
    if i < most.len() {
        assert(most[i] == q);
        let r = lemma_moved_records_known(items, s, front, q);
        let j = choose|j: int| 0 <= j < front.len() && front[j] == r;
        assert(found[j] == r);
        r
    } else {
        assert(found[found.len() - 1] == found.last());
        found.last()
    }
}

/// The good records lie one behind the other, so that no two are one.
pub proof fn lemma_records_in_order(items: Seq<ItemView>)
    ensures
        forall|i: int, j: int|
            0 <= i < j < good_records(items).len() ==> (#[trigger] good_records(items)[i]).end < (
            #[trigger] good_records(items)[j]).end,
        forall|i: int|
            0 <= i < good_records(items).len() ==> (#[trigger] good_records(items)[i]).end
                < items.len(),
    decreases items.len(),
{
    if items.len() > 0 {
        let front = items.drop_last();
        lemma_records_in_order(front);
        let f = good_records(front);
        let g = good_records(items);
        assert forall|i: int| 0 <= i < g.len() implies (#[trigger] g[i]).end < items.len() by {
            if i < f.len() {
                assert(g[i] == f[i]);
            }
        }
        assert forall|i: int, j: int| 0 <= i < j < g.len() implies (#[trigger] g[i]).end < (
        #[trigger] g[j]).end by {
            assert(g[i] == f[i]);
            if j < f.len() {
                assert(g[j] == f[j]);
            }
        }
    }
}

/// No two of the records are one.
spec fn distinct(found: Seq<RecordView>) -> bool {
    forall|i: int, j: int|
        0 <= i < j < found.len() ==> #[trigger] found[i] != #[trigger] found[j]
}

/// What the slots are when the first `n` records have been found.
spec fn after_first(kept_records: nat, found: Seq<RecordView>, n: int) -> SeqStateView {
    SeqStateView::unscanned(kept_records).with_all(found.take(n))
}

/// A record that is in a slot in the end has been there since it was found.
proof fn lemma_stays(k: nat, found: Seq<RecordView>, i: int, n: int, x: RecordView)
    requires
        k > 0,
        0 <= i <= n <= found.len(),
        distinct(found),
        found.take(i).contains(x),
        after_first(k, found, n).records.contains(Some(x)),
    ensures
        after_first(k, found, i).records.contains(Some(x)),
    decreases n - i,
{
    if i < n {
        let r = found[n - 1];
        let before = after_first(k, found, n - 1);
        let after = after_first(k, found, n);
        assert(found.take(n).drop_last() =~= found.take(n - 1));
        assert(found.take(n).last() == r);
        assert(after == before.with(r));
        let first = found.take(i);
        let j = choose|j: int| 0 <= j < first.len() && first[j] == x;
        assert(found[j] == x);
        assert(x != r);
        let at = choose|at: int| 0 <= at < after.records.len() && after.records[at] == Some(x);
        if slot_seq(before.records.first()) <= r.seq {
            let rest = before.records.drop_first();
            let p = below(rest, r.seq);
            lemma_below(rest, r.seq);
            lemma_slots(k, found, n - 1);
            if at < p {
                assert(after.records[at] == before.records[at + 1]);
                assert(before.records[at + 1] == Some(x));
            } else {
                assert(at != p);
                assert(after.records[at] == before.records[at]);
            }
        }
        lemma_stays(k, found, i, n - 1, x);
    }
}

/// How many slots there are.
proof fn lemma_slots(k: nat, found: Seq<RecordView>, n: int)
    requires
        k > 0,
        0 <= n <= found.len(),
    ensures
        after_first(k, found, n).records.len() == k,
    decreases n,
{
    if n > 0 {
        lemma_slots(k, found, n - 1);
        assert(found.take(n).drop_last() =~= found.take(n - 1));
        let before = after_first(k, found, n - 1);
        let rest = before.records.drop_first();
        lemma_below(rest, found[n - 1].seq);
    } else {
        assert(found.take(0) =~= Seq::<RecordView>::empty());
    }
}

/// No record is in two slots.
proof fn lemma_slots_distinct(k: nat, found: Seq<RecordView>, n: int)
    requires
        k > 0,
        0 <= n <= found.len(),
        distinct(found),
        forall|i: int| 0 <= i < found.len() ==> (#[trigger] found[i]).seq > 0,
    ensures
        ({
            let slots = after_first(k, found, n).records;
            forall|i: int, j: int|
                0 <= i < j < slots.len() && slots[i] is Some ==> #[trigger] slots[i]
                    != #[trigger] slots[j]
        }),
    decreases n,
{
    if n > 0 {
        lemma_slots_distinct(k, found, n - 1);
        lemma_slots(k, found, n - 1);
        let r = found[n - 1];
        let before = after_first(k, found, n - 1);
        let slots = after_first(k, found, n).records;
        assert(found.take(n).drop_last() =~= found.take(n - 1));
        assert forall|i: int| 0 <= i < found.take(n - 1).len() implies (
        #[trigger] found.take(n - 1)[i]).seq > 0 by {
            assert(found[i].seq > 0);
        }
        lemma_remembers(k, found.take(n - 1));
        assert forall|i: int| 0 <= i < before.records.len() implies #[trigger] before.records[i]
            != Some(r) by {
            if before.records[i] == Some(r) {
                assert(found.take(n - 1).contains(r));
                let first = found.take(n - 1);
                let j = choose|j: int| 0 <= j < first.len() && first[j] == r;
                assert(found[j] == found[n - 1]);
            }
        }
        if slot_seq(before.records.first()) <= r.seq {
            let rest = before.records.drop_first();
            let p = below(rest, r.seq);
            lemma_below(rest, r.seq);
            assert(slots == rest.insert(p, Some(r)));
            assert forall|i: int, j: int|
                0 <= i < j < slots.len() && slots[i] is Some implies #[trigger] slots[i]
                != #[trigger] slots[j] by {
                let a = if i < p {
                    i + 1
                } else {
                    i
                };
                let b = if j < p {
                    j + 1
                } else {
                    j
                };
                if i != p {
                    assert(slots[i] == before.records[a]);
                }
                if j != p {
                    assert(slots[j] == before.records[b]);
                }
                if i != p && j != p {
                    assert(before.records[a] != before.records[b]);
                } else if i == p {
                    assert(before.records[b] != Some(r));
                } else {
                    assert(before.records[a] != Some(r));
                }
            }
        }
    } else {
        assert(found.take(0) =~= Seq::<RecordView>::empty());
    }
}

/// The surviving slots of a sequence are those of its two parts.
proof fn lemma_moved_slots_split(
    items: Seq<ItemView>,
    s: SeqStateView,
    a: Seq<Option<RecordView>>,
    b: Seq<Option<RecordView>>,
)
    ensures
        moved_slots(items, s, a + b) == moved_slots(items, s, a) + moved_slots(items, s, b),
    decreases b.len(),
{
    if b.len() > 0 {
        lemma_moved_slots_split(items, s, a, b.drop_last());
        assert((a + b).drop_last() =~= a + b.drop_last());
        assert((a + b).last() == b.last());
        assert(moved_slots(items, s, a + b) =~= moved_slots(items, s, a) + moved_slots(
            items,
            s,
            b,
        ));
    } else {
        assert(a + b =~= a);
        assert(moved_slots(items, s, a) + moved_slots(items, s, b) =~= moved_slots(items, s, a));
    }
}

/// The numbers in the surviving slots are from the slots.
proof fn lemma_moved_slots_seq(
    items: Seq<ItemView>,
    s: SeqStateView,
    slots: Seq<Option<RecordView>>,
    low: int,
    high: int,
)
    requires
        forall|i: int|
            0 <= i < slots.len() && slots[i] is Some ==> low <= slot_seq(#[trigger] slots[i])
                < high,
    ensures
        moved_slots(items, s, slots).len() <= slots.len(),
        forall|i: int|
            0 <= i < moved_slots(items, s, slots).len() ==> (#[trigger] moved_slots(
                items,
                s,
                slots,
            )[i]) is Some && low <= slot_seq(moved_slots(items, s, slots)[i]) < high,
    decreases slots.len(),
{
    if slots.len() > 0 {
        let front = slots.drop_last();
        assert forall|i: int| 0 <= i < front.len() && front[i] is Some implies low <= slot_seq(
            #[trigger] front[i],
        ) < high by {
            assert(front[i] == slots[i]);
        }
        lemma_moved_slots_seq(items, s, front, low, high);
        let all = moved_slots(items, s, slots);
        let most = moved_slots(items, s, front);
        assert(slots[slots.len() - 1] == slots.last());
        assert forall|i: int| 0 <= i < all.len() implies (#[trigger] all[i]) is Some && low
            <= slot_seq(all[i]) < high by {
            if i < most.len() {
                assert(all[i] == most[i]);
            }
        }
    }
}

/// Where the slots before `p` end below `seq`, and those from `p` on are not below it.
proof fn lemma_below_is(slots: Seq<Option<RecordView>>, seq: u32, p: int)
    requires
        0 <= p <= slots.len(),
        p > 0 ==> slot_seq(slots[p - 1]) < seq,
        forall|i: int| p <= i < slots.len() ==> slot_seq(#[trigger] slots[i]) >= seq,
    ensures
        below(slots, seq) == p,
{
    lemma_below(slots, seq);
    let q = below(slots, seq);
    if q > p {
        assert(slot_seq(slots[q - 1]) >= seq);
    } else if q < p {
        assert(slot_seq(slots[p - 1]) >= seq);
    }
}

/// Empty slots.
spec fn empties(n: int) -> Seq<Option<RecordView>> {
    Seq::new(n as nat, |i: int| None::<RecordView>)
}

/// The surviving slots of one slot.
proof fn lemma_moved_slots_one(items: Seq<ItemView>, s: SeqStateView, slot: Option<RecordView>)
    ensures
        moved_slots(items, s, seq![slot]) == (if slot is Some && s.records.contains(slot) {
            seq![moved_slot(items, s, slot)]
        } else {
            Seq::empty()
        }),
{
    reveal_with_fuel(moved_slots, 2);
    assert(seq![slot].drop_last() =~= Seq::<Option<RecordView>>::empty());
    assert(seq![slot].last() == slot);
    assert(Seq::<Option<RecordView>>::empty().push(moved_slot(items, s, slot)) =~= seq![
        moved_slot(items, s, slot),
    ]);
}

/// Putting a record between the slots puts it, if it survives, between the surviving slots.
#[verifier::rlimit(40)]
proof fn lemma_rescan_insert(
    items: Seq<ItemView>,
    s: SeqStateView,
    rest: Seq<Option<RecordView>>,
    r: RecordView,
    u: SeqStateView,
)
    requires
        r.seq > 0,
        forall|i: int, j: int|
            0 <= i <= j < rest.len() ==> slot_seq(#[trigger] rest[i]) <= slot_seq(
                #[trigger] rest[j],
            ),
        moved_slots(items, s, rest).len() <= rest.len() + 1,
        u.records == empties(rest.len() + 1 - moved_slots(items, s, rest).len()) + moved_slots(
            items,
            s,
            rest,
        ),
    ensures
        ({
            let slots = moved_slots(items, s, rest.insert(below(rest, r.seq), Some(r)));
            &&& slots.len() <= rest.len() + 1
            &&& s.records.contains(Some(r)) ==> u.with(moved(items, s, r)).records == empties(
                rest.len() + 1 - slots.len(),
            ) + slots
            &&& !s.records.contains(Some(r)) ==> u.records == empties(rest.len() + 1 - slots.len())
                + slots
        }),
{
    let p = below(rest, r.seq);
    lemma_below(rest, r.seq);
    let low = rest.take(p);
    let high = rest.skip(p);
    assert(rest =~= low + high);
    lemma_moved_slots_split(items, s, low, high);
    let a = moved_slots(items, s, low);
    let b = moved_slots(items, s, high);
    // the slots before and behind the new one
    assert forall|i: int| 0 <= i < low.len() && low[i] is Some implies 0 <= slot_seq(
        #[trigger] low[i],
    ) < r.seq by {
        assert(low[i] == rest[i]);
        assert(slot_seq(rest[i]) <= slot_seq(rest[p - 1]));
    }
    assert forall|i: int| 0 <= i < high.len() && high[i] is Some implies r.seq <= slot_seq(
        #[trigger] high[i],
    ) < 0x1_0000_0000 by {
        assert(high[i] == rest[p + i]);
    }
    lemma_moved_slots_seq(items, s, low, 0, r.seq as int);
    lemma_moved_slots_seq(items, s, high, r.seq as int, 0x1_0000_0000);
    // the slots with the new record
    let with_r = rest.insert(p, Some(r));
    assert(with_r =~= low + (seq![Some(r)] + high));
    lemma_moved_slots_split(items, s, low, seq![Some(r)] + high);
    lemma_moved_slots_split(items, s, seq![Some(r)], high);
    lemma_moved_slots_one(items, s, Some(r));
    let slots = moved_slots(items, s, with_r);
    if s.records.contains(Some(r)) {
        let to = moved(items, s, r);
        assert(slots =~= a + (seq![Some(to)] + b));
        let e = rest.len() + 1 - (a + b).len();
        assert(u.records =~= empties(e) + (a + b));
        assert(u.records[0] is None);
        let urest = u.records.drop_first();
        let q = (e - 1) + a.len();
        assert(urest =~= empties(e - 1) + (a + b));
        assert forall|i: int| q <= i < urest.len() implies slot_seq(#[trigger] urest[i])
            >= r.seq by {
            assert(urest[i] == b[i - q]);
        }
        assert(q > 0 ==> slot_seq(urest[q - 1]) < r.seq) by {
            if q > 0 {
                if a.len() > 0 {
                    assert(urest[q - 1] == a[a.len() - 1]);
                } else {
                    assert(urest[q - 1] is None);
                }
            }
        }
        lemma_below_is(urest, r.seq, q);
        assert(urest.insert(q, Some(to)) =~= empties(e - 1) + slots);
    } else {
        assert(slots =~= a + b);
    }
}

/// A record that has given up its slot is in no slot in the end.
#[verifier::rlimit(40)]
proof fn lemma_gone(k: nat, found: Seq<RecordView>, n: int)
    requires
        k > 0,
        0 < n <= found.len(),
        distinct(found),
        forall|i: int| 0 <= i < found.len() ==> (#[trigger] found[i]).seq > 0,
        slot_seq(after_first(k, found, n - 1).records.first()) <= found[n - 1].seq,
    ensures
        ({
            let gone = after_first(k, found, n - 1).records.first();
            gone is Some ==> !after_first(k, found, found.len() as int).records.contains(gone)
        }),
{
    let before = after_first(k, found, n - 1);
    let t = after_first(k, found, n);
    let first = found.take(n - 1);
    let r = found[n - 1];
    let gone = before.records.first();
    lemma_slots(k, found, n - 1);
    if gone is Some && after_first(k, found, found.len() as int).records.contains(gone) {
        let x = gone->0;
        let rest = before.records.drop_first();
        let p = below(rest, r.seq);
        lemma_below(rest, r.seq);
        assert(found.take(n).drop_last() =~= first);
        assert(found.take(n).last() == r);
        assert(t == before.with(r));
        assert forall|i: int| 0 <= i < first.len() implies (#[trigger] first[i]).seq > 0 by {
            assert(found[i].seq > 0);
        }
        lemma_remembers(k, first);
        assert(before.records[0] == Some(x));
        assert(first.contains(x));
        let j = choose|j: int| 0 <= j < first.len() && first[j] == x;
        assert(found.take(n)[j] == x);
        lemma_stays(k, found, n, found.len() as int, x);
        let at = choose|at: int| 0 <= at < t.records.len() && t.records[at] == Some(x);
        lemma_slots_distinct(k, found, n - 1);
        if at < p {
            assert(t.records[at] == before.records[at + 1]);
            assert(before.records[0] != before.records[at + 1]);
        } else if at > p {
            assert(t.records[at] == before.records[at]);
            assert(before.records[0] != before.records[at]);
        } else {
            assert(found[j] == found[n - 1]);
        }
    }
}

/// The slots that a new scan fills are the surviving slots, behind empty ones.
#[verifier::rlimit(40)]
proof fn lemma_rescan(items: Seq<ItemView>, s: SeqStateView, found: Seq<RecordView>, n: int)
    requires
        s.records.len() > 0,
        0 <= n <= found.len(),
        distinct(found),
        forall|i: int| 0 <= i < found.len() ==> (#[trigger] found[i]).seq > 0,
        s.records == SeqStateView::unscanned(s.records.len()).with_all(found).records,
    ensures
        ({
            let k = s.records.len();
            let slots = moved_slots(items, s, after_first(k, found, n).records);
            &&& slots.len() <= k
            &&& SeqStateView::unscanned(k).with_all(
                moved_records(items, s, found.take(n)),
            ).records == empties(k - slots.len()) + slots
        }),
    decreases n,
{
    let k = s.records.len();
    let none = SeqStateView::unscanned(k);
    let t = after_first(k, found, n);
    lemma_slots(k, found, n);
    if n > 0 {
        lemma_rescan(items, s, found, n - 1);
        lemma_slots(k, found, n - 1);
        let r = found[n - 1];
        let before = after_first(k, found, n - 1);
        let first = found.take(n - 1);
        assert(found.take(n).drop_last() =~= first);
        assert(found.take(n).last() == r);
        assert(t == before.with(r));
        assert forall|i: int| 0 <= i < first.len() implies (#[trigger] first[i]).seq > 0 by {
            assert(found[i].seq > 0);
        }
        lemma_remembers(k, first);
        let old_slots = moved_slots(items, s, before.records);
        let u = none.with_all(moved_records(items, s, first));
        assert(found.take(found.len() as int) =~= found);
        // a record is in the slots in the end only if it is there once it has been found
        if s.records.contains(Some(r)) {
            assert(found.take(n)[n - 1] == r);
            lemma_stays(k, found, n, found.len() as int, r);
        }
        if slot_seq(before.records.first()) > r.seq {
            if s.records.contains(Some(r)) {
                let at = choose|at: int|
                    0 <= at < before.records.len() && before.records[at] == Some(r);
                assert(first.contains(r));
                let j = choose|j: int| 0 <= j < first.len() && first[j] == r;
                assert(found[j] == found[n - 1]);
            }
        } else {
            let gone = before.records.first();
            let rest = before.records.drop_first();
            let p = below(rest, r.seq);
            lemma_below(rest, r.seq);
            // the record that gives up its slot does not come back
            lemma_gone(k, found, n);
            assert(before.records =~= seq![gone] + rest);
            lemma_moved_slots_split(items, s, seq![gone], rest);
            lemma_moved_slots_one(items, s, gone);
            assert(old_slots =~= moved_slots(items, s, rest));
            assert forall|i: int, j: int| 0 <= i <= j < rest.len() implies slot_seq(
                #[trigger] rest[i],
            ) <= slot_seq(#[trigger] rest[j]) by {
                assert(rest[i] == before.records[i + 1] && rest[j] == before.records[j + 1]);
            }
            lemma_rescan_insert(items, s, rest, r, u);
            if s.records.contains(Some(r)) {
                let m = moved_records(items, s, found.take(n));
                assert(m.drop_last() =~= moved_records(items, s, first));
            }
        }
    } else {
        assert(found.take(0) =~= Seq::<RecordView>::empty());
        lemma_moved_slots_none(items, s, t.records);
        assert(none.records =~= empties(k as int) + Seq::<Option<RecordView>>::empty());
    }
}

proof fn lemma_moved_slots_none(
    items: Seq<ItemView>,
    s: SeqStateView,
    slots: Seq<Option<RecordView>>,
)
    requires
        forall|i: int| 0 <= i < slots.len() ==> (#[trigger] slots[i]) is None,
    ensures
        moved_slots(items, s, slots) == Seq::<Option<RecordView>>::empty(),
    decreases slots.len(),
{
    if slots.len() > 0 {
        let front = slots.drop_last();
        assert forall|i: int| 0 <= i < front.len() implies (#[trigger] front[i]) is None by {
            assert(front[i] == slots[i]);
        }
        lemma_moved_slots_none(items, s, front);
        assert(slots[slots.len() - 1] is None);
    }
}

/// Of slots in order that are all known, all records survive, behind the empty slots.
proof fn lemma_all_survive(
    items: Seq<ItemView>,
    s: SeqStateView,
    slots: Seq<Option<RecordView>>,
)
    requires
        forall|i: int| 0 <= i < slots.len() ==> s.records.contains(#[trigger] slots[i]),
        forall|i: int, j: int|
            0 <= i <= j < slots.len() ==> slot_seq(#[trigger] slots[i]) <= slot_seq(
                #[trigger] slots[j],
            ),
        forall|i: int|
            0 <= i < slots.len() ==> (#[trigger] slots[i] matches Some(r) ==> r.seq > 0),
    ensures
        ({
            let m = moved_slots(items, s, slots);
            &&& m.len() <= slots.len()
            &&& slots.map_values(|slot: Option<RecordView>| moved_slot(items, s, slot)) == empties(
                slots.len() - m.len(),
            ) + m
        }),
    decreases slots.len(),
{
    let f = |slot: Option<RecordView>| moved_slot(items, s, slot);
    let m = moved_slots(items, s, slots);
    if slots.len() > 0 {
        let front = slots.drop_last();
        let last = slots[slots.len() - 1];
        assert forall|i: int| 0 <= i < front.len() implies s.records.contains(
            #[trigger] front[i],
        ) by {
            assert(front[i] == slots[i]);
        }
        assert forall|i: int, j: int| 0 <= i <= j < front.len() implies slot_seq(
            #[trigger] front[i],
        ) <= slot_seq(#[trigger] front[j]) by {
            assert(front[i] == slots[i] && front[j] == slots[j]);
        }
        assert forall|i: int| 0 <= i < front.len() implies (#[trigger] front[i] matches Some(r)
            ==> r.seq > 0) by {
            assert(front[i] == slots[i]);
        }
        lemma_all_survive(items, s, front);
        if last is None {
            assert forall|i: int| 0 <= i < front.len() implies (#[trigger] front[i]) is None by {
                assert(slot_seq(slots[i]) <= slot_seq(slots[slots.len() - 1]));
                assert(front[i] == slots[i]);
            }
            lemma_moved_slots_none(items, s, front);
            assert(slots.map_values(f) =~= empties(slots.len() - m.len()) + m);
        } else {
            assert(slots.map_values(f) =~= front.map_values(f).push(f(last)));
            assert(slots.map_values(f) =~= empties(slots.len() - m.len()) + m);
        }
    } else {
        assert(slots.map_values(f) =~= empties(0) + m);
    }
}

/// A collection keeps the records that are known: a new scan finds the same, each where it has
/// moved to, still good and with the same data.
#[verifier::rlimit(40)]
proof fn lemma_known_records_are_kept(s: SeqStateView, items: Seq<ItemView>)
    requires
        s.wf(),
        s.records.len() > 0,
        s.records == SeqStateView::unscanned(s.records.len()).with_all(
            good_records(items),
        ).records,
    ensures
        ({
            let left = kept(items, s);
            &&& SeqStateView::unscanned(s.records.len()).with_all(good_records(left)).records
                == s.records.map_values(|slot: Option<RecordView>| moved_slot(items, s, slot))
            &&& forall|i: int|
                0 <= i < s.records.len() ==> (#[trigger] s.records[i] matches Some(r)
                    ==> is_good_record(items, r) && is_good_record(left, moved(items, s, r))
                    && extracted(left, moved(items, s, r)) == extracted(items, r))
        }),
{
    let k = s.records.len();
    let found = good_records(items);
    let left = kept(items, s);
    lemma_good_records_numbered(items);
    lemma_records_in_order(items);
    lemma_remembers(k, found);
    assert(distinct(found)) by {
        assert forall|i: int, j: int| 0 <= i < j < found.len() implies #[trigger] found[i]
            != #[trigger] found[j] by {
            assert(found[i].end < found[j].end);
        }
    }
    assert(all_good(items, s)) by {
        assert forall|r: RecordView| #[trigger] s.records.contains(Some(r)) implies is_good_record(
            items,
            r,
        ) by {
            let i = choose|i: int| 0 <= i < s.records.len() && s.records[i] == Some(r);
            assert(found.contains(r));
            law_scan_finds_the_good_records(items, r);
        }
    }
    assert(items.take(items.len() as int) =~= items);
    lemma_left_records(items, s, items.len() as int);
    assert(found.take(found.len() as int) =~= found);
    lemma_rescan(items, s, found, found.len() as int);
    assert forall|i: int| 0 <= i < s.records.len() implies s.records.contains(
        #[trigger] s.records[i],
    ) by {}
    lemma_all_survive(items, s, s.records);
    let g = good_records(left);
    lemma_good_records_numbered(left);
    lemma_remembers(k, g);
    assert forall|i: int| 0 <= i < s.records.len() implies (#[trigger] s.records[i] matches Some(
        r,
    ) ==> is_good_record(items, r) && is_good_record(left, moved(items, s, r)) && extracted(
        left,
        moved(items, s, r),
    ) == extracted(items, r)) by {
        if s.records[i] is Some {
            let r = s.records[i]->0;
            assert(s.records.contains(Some(r)));
            lemma_moved_is_good(items, s, r, items.len() as int);
            law_good_record_is_extractable(items, r);
            law_good_record_is_extractable(left, moved(items, s, r));
        }
    }
}

/// What a collection leaves has no higher numbers than what was there before.
proof fn lemma_left_numbers(s: SeqStateView, items: Seq<ItemView>, next: u32)
    requires
        numbers_below(items, next),
    ensures
        numbers_below(kept(items, s), next),
{
    let left = kept(items, s);
    assert forall|at: int| 0 <= at < left.len() implies ((#[trigger] left[at]).elem matches Some(
        ElemView::Start { seq: number },
    ) ==> number < next) by {
        let n = lemma_came_from(items, s, at);
        assert(items[n] == left[at]);
    }
}

/// Where the numbers of all Start elements are below one, that which a scan goes on with is
/// not above it.
proof fn lemma_scan_goes_on_below(k: nat, items: Seq<ItemView>, next: u32)
    requires
        k > 0,
        next > 0,
        numbers_below(items, next),
    ensures
        ({
            let s = SeqStateView::unscanned(k).scanned(good_records(items), highest_start(items));
            s.next_seq matches Some(n) && n <= next
        }),
{
    let found = good_records(items);
    let top = highest_start(items);
    lemma_good_records_numbered(items);
    lemma_highest_start(items, next);
    law_newest_record_is_known(k, found, top);
    if let Some(newest) = SeqStateView::unscanned(k).scanned(found, top).highest() {
        law_scan_finds_the_good_records(items, newest);
        assert(items[newest.start].elem == Some(ElemView::Start { seq: newest.seq }));
    }
}

/// A collection by a list that is current keeps the records that the list knows: the list
/// knows the same records afterwards, each where it has moved to, still good and with the
/// same data. It goes on with the number that it would have written next.
#[verifier::rlimit(40)]
pub proof fn law_garbage_keeps_the_known_records<T, V: VTable<T>>(
    list: ListView<T, V>,
    items: Seq<ItemView>,
)
    requires
        list.wf(),
        list.current(items),
        list.seq.next_seq is Some,
    ensures
        ({
            let left = kept(items, list.seq);
            let after = list.after_garbage(items);
            &&& after.seq.records == list.seq.records.map_values(
                |slot: Option<RecordView>| moved_slot(items, list.seq, slot),
            )
            &&& forall|i: int|
                0 <= i < list.seq.records.len() ==> (#[trigger] list.seq.records[i] matches Some(
                    r,
                ) ==> is_good_record(items, r) && is_good_record(
                    left,
                    moved(items, list.seq, r),
                ) && extracted(left, moved(items, list.seq, r)) == extracted(items, r))
            &&& after.current(left)
            &&& after.seq.next_seq == list.seq.next_seq
        }),
{
    let s = list.seq;
    let next = s.next_seq->0;
    let left = kept(items, s);
    assert(slot_seq(s.records[s.records.len() - 1]) < next);
    lemma_known_records_are_kept(s, items);
    lemma_left_numbers(s, items, next);
    lemma_scan_goes_on_below(s.records.len(), left, next);
    let after = list.after_garbage(items);
    assert(after.seq.next_seq == Some(next));
    assert(after.seq.records == SeqStateView::unscanned(s.records.len()).with_all(
        good_records(left),
    ).records);
    assert(after.seq.records.len() == s.records.len());
    assert(after.current(left));
}

/// What a list reads for the first time is the same before and after a collection by a list
/// that knows the storage and keeps as many records.
pub proof fn law_garbage_changes_no_read<T, V: VTable<T>>(
    list: ListView<T, V>,
    items: Seq<ItemView>,
    reader: ListView<T, V>,
)
    requires
        list.wf(),
        list.knows(items),
        list.seq.next_seq is Some,
        reader.wf(),
        reader.seq == SeqStateView::unscanned(list.seq.records.len()),
    ensures
        reader.after_read(kept(items, list.seq)).nodes == reader.after_read(items).nodes,
{
    let s = list.seq;
    let k = s.records.len();
    let left = kept(items, s);
    lemma_known_records_are_kept(s, items);
    let was = reader.after_scan(items).seq.highest();
    let is = reader.after_scan(left).seq.highest();
    assert(was == s.records[k - 1]);
    assert(is == moved_slot(items, s, s.records[k - 1])) by {
        let f = |slot: Option<RecordView>| moved_slot(items, s, slot);
        assert(s.records.map_values(f)[k - 1] == f(s.records[k - 1]));
        assert(SeqStateView::unscanned(k).with_all(good_records(left)).records
            == s.records.map_values(f));
    }
}

/// After a collection by a current list each item belongs to a record that the list knows.
proof fn lemma_left_is_known<T, V: VTable<T>>(
    list: ListView<T, V>,
    items: Seq<ItemView>,
    at: int,
) -> (r: RecordView)
    requires
        list.wf(),
        list.current(items),
        list.seq.next_seq is Some,
        0 <= at < kept(items, list.seq).len(),
    ensures
        list.after_garbage(items).seq.records.contains(Some(r)),
        is_good_record(kept(items, list.seq), r),
        r.start <= at <= r.end,
        kept(items, list.seq)[at].elem is Some,
{
    let s = list.seq;
    law_garbage_keeps_the_known_records(list, items);
    let n = lemma_came_from(items, s, at);
    let r = lemma_kept_by(s, n);
    let to = moved(items, s, r);
    let i = choose|i: int| 0 <= i < s.records.len() && s.records[i] == Some(r);
    let f = |slot: Option<RecordView>| moved_slot(items, s, slot);
    assert(s.records[i] matches Some(x) && x == r);
    assert(s.records.map_values(f)[i] == Some(to));
    assert(list.after_garbage(items).seq.records[i] == Some(to));
    lemma_block(items, s, r, n);
    lemma_block(items, s, r, r.end);
    to
}

/// The index that a surviving item came from.
pub proof fn lemma_came_from(items: Seq<ItemView>, s: SeqStateView, at: int) -> (n: int)
    requires
        0 <= at < kept(items, s).len(),
    ensures
        0 <= n < items.len(),
        s.keeps(n),
        items[n].elem is Some,
        new_index(items, s, n) == at,
        kept(items, s)[at] == items[n],
    decreases items.len(),
{
    let front = items.drop_last();
    assert(front =~= items.take(items.len() - 1));
    if at < kept(front, s).len() {
        let n = lemma_came_from(front, s, at);
        assert(front.take(n) =~= items.take(n));
        n
    } else {
        items.len() - 1
    }
}

/// A second collection finds nothing to remove.
pub proof fn law_collecting_again_removes_nothing<T, V: VTable<T>>(
    list: ListView<T, V>,
    items: Seq<ItemView>,
)
    requires
        list.wf(),
        list.current(items),
        list.seq.next_seq is Some,
    ensures
        kept(kept(items, list.seq), list.after_garbage(items).seq) == kept(items, list.seq),
{
    let left = kept(items, list.seq);
    let known = list.after_garbage(items).seq;
    assert forall|at: int| 0 <= at < left.len() implies (#[trigger] left[at]).elem is Some
        && known.keeps(at) by {
        let r = lemma_left_is_known(list, items, at);
        let i = choose|i: int| 0 <= i < known.records.len() && known.records[i] == Some(r);
        assert(known.records[i] matches Some(x) && x.start <= at <= x.end);
    }
    assert(left.take(left.len() as int) =~= left);
    lemma_all_kept(left, known, left.len() as int);
}

proof fn lemma_all_kept(items: Seq<ItemView>, s: SeqStateView, n: int)
    requires
        0 <= n <= items.len(),
        forall|i: int|
            0 <= i < items.len() ==> (#[trigger] items[i]).elem is Some && s.keeps(i),
    ensures
        kept(items.take(n), s) == items.take(n),
    decreases n,
{
    if n > 0 {
        lemma_all_kept(items, s, n - 1);
        assert(items.take(n).drop_last() =~= items.take(n - 1));
        assert(items[n - 1].elem is Some && s.keeps(n - 1));
        assert(items.take(n) =~= items.take(n - 1).push(items[n - 1]));
    } else {
        assert(items.take(0) =~= Seq::<ItemView>::empty());
    }
}

/// A list that is current, and whose nodes have been read, can write after a collection: the
/// write is not refused, the number is that of no Start element, and where there was something
/// to write, there still is.
pub proof fn law_nothing_refuses_a_write_after_garbage<T, V: VTable<T>>(
    list: ListView<T, V>,
    items: Seq<ItemView>,
)
    requires
        list.wf(),
        list.current(items),
        list.seq.next_seq is Some,
        forall|i: int|
            0 <= i < list.nodes.len() ==> !((#[trigger] list.nodes[i]).state is Initial),
    ensures
        ({
            let collected = list.after_garbage(items);
            &&& collected.refused() is None
            &&& first_start(kept(items, list.seq), collected.seq.next_seq->0) is None
            &&& collected.unwritten() == list.unwritten()
        }),
{
    law_garbage_keeps_the_known_records(list, items);
    lemma_unused(kept(items, list.seq), list.seq.next_seq->0);
    let k = list.seq.records.len();
    let f = |slot: Option<RecordView>| moved_slot(items, list.seq, slot);
    assert(list.seq.records.map_values(f)[k - 1] == f(list.seq.records[k - 1]));
}

/// A complete write after a collection by a current list is read back, and the list that has
/// written it is current again.
pub proof fn law_write_after_garbage_succeeds<T, V: VTable<T>>(
    list: ListView<T, V>,
    items: Seq<ItemView>,
    after: Seq<ItemView>,
)
    requires
        list.wf(),
        list.current(items),
        list.seq.next_seq is Some,
        list.unwritten(),
        appended(kept(items, list.seq), after, list.after_garbage(items).next_record()),
    ensures
        ({
            let collected = list.after_garbage(items);
            &&& collected.read_back(after) is Some
            &&& collected.after_write(collected.read_back(after)->0).current(after)
        }),
{
    let left = kept(items, list.seq);
    law_garbage_keeps_the_known_records(list, items);
    lemma_good_records_numbered(left);
    lemma_scanned_wf(list.forgotten().seq, good_records(left), highest_start(left));
    let k = list.seq.records.len();
    let f = |slot: Option<RecordView>| moved_slot(items, list.seq, slot);
    assert(list.seq.records.map_values(f)[k - 1] == f(list.seq.records[k - 1]));
    law_write_keeps_current(list.after_garbage(items), left, after);
}

} // verus!
