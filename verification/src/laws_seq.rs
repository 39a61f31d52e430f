//! Laws of what a scan remembers.
use crate::record::RecordView;
use crate::seq_state::{
    below, later, lemma_below, lemma_with_all_wf, lemma_with_wf, next_after, slot_seq, SeqStateView,
};
use vstd::prelude::*;

verus! {

/// What the slots are after records have been put into empty ones.
pub open spec fn remembers(s: SeqStateView, found: Seq<RecordView>) -> bool {
    &&& forall|i: int|
        0 <= i < s.records.len() ==> (#[trigger] s.records[i] matches Some(r) ==> found.contains(
            r,
        ))
    &&& forall|r: RecordView| #[trigger]
        found.contains(r) ==> s.records.contains(Some(r)) || slot_seq(s.records.first()) >= r.seq
    &&& found.len() > 0 ==> s.next_seq == next_after(slot_seq(s.records.last()))
    &&& found.len() > 0 <==> s.needs_gc
}

proof fn lemma_with_remembers(s: SeqStateView, found: Seq<RecordView>, r: RecordView)
    requires
        s.wf(),
        s.records.len() > 0,
        r.seq > 0,
        remembers(s, found),
        found.len() == 0 ==> slot_seq(s.records.first()) == 0,
    ensures
        remembers(s.with(r), found.push(r)),
{
    let after = s.with(r);
    let more = found.push(r);
    lemma_with_wf(s, r);
    assert forall|x: RecordView| #[trigger] more.contains(x) implies found.contains(x) || x == r by {
        let i = choose|i: int| 0 <= i < more.len() && more[i] == x;
        if i < found.len() {
            assert(found[i] == x);
        }
    }
    assert forall|x: RecordView| found.contains(x) implies #[trigger] more.contains(x) by {
        let i = choose|i: int| 0 <= i < found.len() && found[i] == x;
        assert(more[i] == x);
    }
    assert(more[found.len() as int] == r);
    if slot_seq(s.records.first()) > r.seq {
        assert(found.len() > 0);
    } else {
        let rest = s.records.drop_first();
        let at = below(rest, r.seq);
        lemma_below(rest, r.seq);
        let records = rest.insert(at, Some(r));
        assert(after.records == records);
        assert forall|i: int| 0 <= i < records.len() implies (#[trigger] records[i] matches Some(
            x,
        ) ==> more.contains(x)) by {
            if i < at {
                assert(records[i] == s.records[i + 1]);
            } else if i > at {
                assert(records[i] == s.records[i]);
            }
        }
        assert(records[at] == Some(r));
        assert(slot_seq(records.first()) >= slot_seq(s.records.first())) by {
            if at > 0 {
                assert(records[0] == s.records[1]);
                assert(slot_seq(s.records[0]) <= slot_seq(s.records[1]));
            }
        }
        assert forall|x: RecordView| #[trigger] more.contains(x) implies records.contains(Some(x))
            || slot_seq(records.first()) >= x.seq by {
            if x == r {
                assert(records[at] == Some(x));
            } else if s.records.contains(Some(x)) {
                let i = choose|i: int| 0 <= i < s.records.len() && s.records[i] == Some(x);
                if i == 0 {
                    assert(slot_seq(s.records.first()) == x.seq);
                } else if i - 1 < at {
                    assert(records[i - 1] == Some(x));
                } else {
                    assert(records[i] == Some(x));
                }
            }
        }
    }
}

/// What the slots are after a scan.
pub proof fn lemma_remembers(kept: nat, found: Seq<RecordView>)
    requires
        kept > 0,
        forall|i: int| 0 <= i < found.len() ==> (#[trigger] found[i]).seq > 0,
    ensures
        remembers(SeqStateView::unscanned(kept).with_all(found), found),
        SeqStateView::unscanned(kept).with_all(found).wf(),
        SeqStateView::unscanned(kept).with_all(found).records.len() == kept,
    decreases found.len(),
{
    let none = SeqStateView::unscanned(kept);
    lemma_with_all_wf(none, found);
    if found.len() > 0 {
        let front = found.drop_last();
        assert forall|i: int| 0 <= i < front.len() implies (#[trigger] front[i]).seq > 0 by {
            assert(front[i] == found[i]);
        }
        lemma_remembers(kept, front);
        lemma_with_remembers(none.with_all(front), front, found.last());
        assert(front.push(found.last()) =~= found);
    }
}

/// The newest record that a scan knows is one that it has found, and none that it has found
/// is newer. Where it has found none, it knows none. The next number is above that of the
/// newest record, and above those of all Start elements, of which `top` is the highest.
pub proof fn law_newest_record_is_known(kept: nat, found: Seq<RecordView>, top: u32)
    requires
        kept > 0,
        forall|i: int| 0 <= i < found.len() ==> (#[trigger] found[i]).seq > 0,
    ensures
        ({
            let s = SeqStateView::unscanned(kept).scanned(found, top);
            match s.highest() {
                Some(newest) => {
                    &&& found.contains(newest)
                    &&& forall|i: int|
                        0 <= i < found.len() ==> (#[trigger] found[i]).seq <= newest.seq
                    &&& s.next_seq matches Some(next) ==> newest.seq < next && top < next
                    &&& s.next_seq is None <==> newest.seq == u32::MAX || top == u32::MAX
                },
                None => found.len() == 0 && s.next_seq == next_after(top),
            }
        }),
{
    lemma_remembers(kept, found);
    let s = SeqStateView::unscanned(kept).with_all(found);
    let n = s.records.len();
    assert forall|i: int| 0 <= i < found.len() implies (#[trigger] found[i]).seq <= slot_seq(
        s.records.last(),
    ) by {
        let r = found[i];
        assert(found.contains(r));
        assert(slot_seq(s.records[0]) <= slot_seq(s.records[n - 1]));
        if s.records.contains(Some(r)) {
            let k = choose|k: int| 0 <= k < s.records.len() && s.records[k] == Some(r);
            assert(slot_seq(s.records[k]) <= slot_seq(s.records[n - 1]));
        }
    }
    if found.len() > 0 {
        assert(found[0].seq > 0);
    }
}

/// A scan keeps the newest records: each slot holds a record that has been found, and where a
/// record that has been found is in no slot, none of the slots holds an older one.
pub proof fn law_newest_records_are_kept(
    kept: nat,
    found: Seq<RecordView>,
    top: u32,
    r: RecordView,
)
    requires
        kept > 0,
        forall|i: int| 0 <= i < found.len() ==> (#[trigger] found[i]).seq > 0,
    ensures
        ({
            let s = SeqStateView::unscanned(kept).scanned(found, top);
            &&& s.records.len() == kept
            &&& s.records.contains(Some(r)) ==> found.contains(r)
            &&& found.contains(r) && !s.records.contains(Some(r)) ==> forall|i: int|
                0 <= i < kept ==> slot_seq(#[trigger] s.records[i]) >= r.seq
        }),
{
    lemma_remembers(kept, found);
    let s = SeqStateView::unscanned(kept).with_all(found);
    if s.records.contains(Some(r)) {
        let i = choose|i: int| 0 <= i < s.records.len() && s.records[i] == Some(r);
        assert(s.records[i] matches Some(x) && x == r);
    }
    if found.contains(r) && !s.records.contains(Some(r)) {
        assert forall|i: int| 0 <= i < kept implies slot_seq(#[trigger] s.records[i])
            >= r.seq by {
            assert(slot_seq(s.records[0]) <= slot_seq(s.records[i]));
        }
    }
}

/// The slots with one more, put in where its number belongs.
spec fn put(slots: Seq<Option<RecordView>>, r: RecordView) -> Seq<Option<RecordView>> {
    slots.insert(below(slots, r.seq), Some(r))
}

/// Whether the slots are in the order of their numbers.
spec fn in_order(slots: Seq<Option<RecordView>>) -> bool {
    forall|i: int, j: int|
        0 <= i <= j < slots.len() ==> slot_seq(#[trigger] slots[i]) <= slot_seq(
            #[trigger] slots[j],
        )
}

/// Where the point is that only smaller numbers stand before, and only larger behind.
proof fn lemma_point(slots: Seq<Option<RecordView>>, seq: u32, at: int)
    requires
        0 <= at <= slots.len(),
        forall|i: int| 0 <= i < at ==> slot_seq(#[trigger] slots[i]) < seq,
        forall|i: int| at <= i < slots.len() ==> slot_seq(#[trigger] slots[i]) >= seq,
    ensures
        below(slots, seq) == at,
{
    lemma_below(slots, seq);
    let b = below(slots, seq);
    if b < at {
        assert(slot_seq(slots[b]) >= seq);
    } else if b > at {
        assert(slot_seq(slots[b - 1]) < seq);
    }
}

/// What stands before and behind the point in slots that are in order.
proof fn lemma_in_order_below(slots: Seq<Option<RecordView>>, seq: u32)
    requires
        in_order(slots),
    ensures
        0 <= below(slots, seq) <= slots.len(),
        forall|i: int| 0 <= i < below(slots, seq) ==> slot_seq(#[trigger] slots[i]) < seq,
        forall|i: int|
            below(slots, seq) <= i < slots.len() ==> slot_seq(#[trigger] slots[i]) >= seq,
{
    lemma_below(slots, seq);
    let b = below(slots, seq);
    assert forall|i: int| 0 <= i < b implies slot_seq(#[trigger] slots[i]) < seq by {
        assert(slot_seq(slots[i]) <= slot_seq(slots[b - 1]));
    }
}

/// Two records of different numbers can be put in in either order.
proof fn lemma_put_twice(slots: Seq<Option<RecordView>>, a: RecordView, b: RecordView)
    requires
        in_order(slots),
        a.seq < b.seq,
    ensures
        put(put(slots, a), b) == put(put(slots, b), a),
{
    let p = below(slots, a.seq);
    let q = below(slots, b.seq);
    lemma_in_order_below(slots, a.seq);
    lemma_in_order_below(slots, b.seq);
    if q < p {
        assert(slot_seq(slots[q]) >= b.seq);
        assert(slot_seq(slots[q]) < a.seq);
    }
    let sa = put(slots, a);
    let sb = put(slots, b);
    assert forall|i: int| 0 <= i < q + 1 implies slot_seq(#[trigger] sa[i]) < b.seq by {
        if i < p {
            assert(sa[i] == slots[i]);
        } else if i > p {
            assert(sa[i] == slots[i - 1]);
        }
    }
    assert forall|i: int| q + 1 <= i < sa.len() implies slot_seq(#[trigger] sa[i]) >= b.seq by {
        assert(sa[i] == slots[i - 1]);
    }
    lemma_point(sa, b.seq, q + 1);
    assert forall|i: int| 0 <= i < p implies slot_seq(#[trigger] sb[i]) < a.seq by {
        assert(sb[i] == slots[i]);
    }
    assert forall|i: int| p <= i < sb.len() implies slot_seq(#[trigger] sb[i]) >= a.seq by {
        if i < q {
            assert(sb[i] == slots[i]);
        } else if i > q {
            assert(sb[i] == slots[i - 1]);
        }
    }
    lemma_point(sb, a.seq, p);
    assert(put(sa, b) =~= put(sb, a));
}

/// What remains of slots in order when one has been put in and the first given up.
proof fn lemma_put_drops_first(slots: Seq<Option<RecordView>>, r: RecordView)
    requires
        slots.len() > 0,
        in_order(slots),
        slot_seq(slots.first()) != r.seq,
    ensures
        put(slots, r).drop_first() == (if slot_seq(slots.first()) > r.seq {
            slots
        } else {
            put(slots.drop_first(), r)
        }),
        slot_seq(slots.first()) < r.seq ==> put(slots, r).first() == slots.first(),
{
    let rest = slots.drop_first();
    lemma_in_order_below(slots, r.seq);
    let at = below(slots, r.seq);
    if slot_seq(slots.first()) > r.seq {
        if at > 0 {
            assert(slot_seq(slots[0]) < r.seq);
        }
        assert(put(slots, r).drop_first() =~= slots);
    } else {
        if at == 0 {
            assert(slot_seq(slots[0]) >= r.seq);
        }
        assert forall|i: int| 0 <= i < at - 1 implies slot_seq(#[trigger] rest[i]) < r.seq by {
            assert(rest[i] == slots[i + 1]);
        }
        assert forall|i: int| at - 1 <= i < rest.len() implies slot_seq(
            #[trigger] rest[i],
        ) >= r.seq by {
            assert(rest[i] == slots[i + 1]);
        }
        lemma_point(rest, r.seq, at - 1);
        assert(put(slots, r).drop_first() =~= put(rest, r));
    }
}

/// What the slots are after one record and then another.
proof fn lemma_with_twice(s: SeqStateView, a: RecordView, b: RecordView)
    requires
        s.wf(),
        s.records.len() > 0,
        a.seq > 0,
        b.seq > 0,
        a.seq != b.seq,
        forall|i: int|
            0 <= i < s.records.len() ==> slot_seq(#[trigger] s.records[i]) != a.seq && slot_seq(
                s.records[i],
            ) != b.seq,
    ensures
        s.with(a).with(b).records == put(put(s.records, a), b).drop_first().drop_first(),
{
    let x = s.records;
    let y = put(x, a);
    assert(slot_seq(x[0]) != a.seq);
    lemma_with_wf(s, a);
    lemma_put_drops_first(x, a);
    assert(s.with(a).records == y.drop_first());
    lemma_in_order_below(x, a.seq);
    let p = below(x, a.seq);
    assert forall|i: int, j: int| 0 <= i <= j < y.len() implies slot_seq(#[trigger] y[i])
        <= slot_seq(#[trigger] y[j]) by {
        let fi = if i < p { i } else { i - 1 };
        let fj = if j < p { j } else { j - 1 };
        if i != p {
            assert(y[i] == x[fi]);
        }
        if j != p {
            assert(y[j] == x[fj]);
        }
        if i != p && j != p {
            assert(slot_seq(x[fi]) <= slot_seq(x[fj]));
        }
    }
    assert forall|i: int| 0 <= i < y.len() implies slot_seq(#[trigger] y[i]) != b.seq by {
        if i < p {
            assert(y[i] == x[i]);
        } else if i > p {
            assert(y[i] == x[i - 1]);
        }
    }
    assert(slot_seq(y[0]) != b.seq && slot_seq(y[1]) != b.seq);
    lemma_put_drops_first(y, b);
    let t = y.drop_first();
    assert(t.first() == y[1]);
    assert(in_order(t)) by {
        assert forall|i: int, j: int| 0 <= i <= j < t.len() implies slot_seq(#[trigger] t[i])
            <= slot_seq(#[trigger] t[j]) by {
            assert(t[i] == y[i + 1] && t[j] == y[j + 1]);
        }
    }
    lemma_put_drops_first(t, b);
    assert(slot_seq(y[0]) <= slot_seq(y[1]));
}

/// Two records of different numbers, of which none is known, can be found in either order:
/// the same is known then.
pub proof fn law_order_of_records_does_not_matter(
    s: SeqStateView,
    a: RecordView,
    b: RecordView,
)
    requires
        s.wf(),
        s.records.len() > 0,
        a.seq > 0,
        b.seq > 0,
        a.seq != b.seq,
        forall|i: int|
            0 <= i < s.records.len() ==> slot_seq(#[trigger] s.records[i]) != a.seq && slot_seq(
                s.records[i],
            ) != b.seq,
    ensures
        s.with(a).with(b) == s.with(b).with(a),
{
    lemma_with_twice(s, a, b);
    lemma_with_twice(s, b, a);
    if a.seq < b.seq {
        lemma_put_twice(s.records, a, b);
    } else {
        lemma_put_twice(s.records, b, a);
    }
    let first = slot_seq(s.records.first());
    if first > a.seq && first <= b.seq {
        lemma_stays_above(s, b, a);
    } else if first > b.seq && first <= a.seq {
        lemma_stays_above(s, a, b);
    }
}

/// A record that is too old stays too old.
proof fn lemma_stays_above(s: SeqStateView, r: RecordView, old: RecordView)
    requires
        s.wf(),
        s.records.len() > 0,
        r.seq > 0,
        slot_seq(s.records.first()) > old.seq,
        slot_seq(s.records.first()) <= r.seq,
    ensures
        slot_seq(s.with(r).records.first()) > old.seq,
{
    lemma_with_wf(s, r);
    let rest = s.records.drop_first();
    lemma_below(rest, r.seq);
    if below(rest, r.seq) > 0 {
        assert(s.with(r).records[0] == rest[0]);
        assert(rest[0] == s.records[1]);
        assert(slot_seq(s.records[0]) <= slot_seq(s.records[1]));
    } else {
        assert(s.with(r).records[0] == Some(r));
    }
}

/// A record that is found or written takes the place of the oldest that is known, unless that
/// is newer. The slots are in the order of their numbers then, garbage may have to be
/// collected, and the next number is the one after that of the newest record.
pub proof fn law_what_becomes_of_a_record(s: SeqStateView, r: RecordView, i: int, j: int)
    requires
        s.wf(),
        s.records.len() > 0,
        r.seq > 0,
    ensures
        (s.records[0] matches Some(oldest) && oldest.seq > r.seq) ==> s.with(r) == s,
        !(s.records[0] matches Some(oldest) && oldest.seq > r.seq) ==> {
            let t = s.with(r);
            &&& t.records.len() == s.records.len()
            &&& t.records.to_multiset() == s.records.drop_first().to_multiset().insert(Some(r))
            &&& 0 <= i <= j < t.records.len() ==> (t.records[i] matches Some(a) ==> (t.records[j]
                matches Some(b) && a.seq <= b.seq))
            &&& t.needs_gc
            &&& t.records[t.records.len() - 1] matches Some(newest)
            &&& newest.seq < u32::MAX ==> t.next_seq == Some((newest.seq + 1) as u32)
            &&& newest.seq == u32::MAX ==> t.next_seq is None
        },
{
    let t = s.with(r);
    lemma_with_wf(s, r);
    if !(s.records[0] matches Some(oldest) && oldest.seq > r.seq) {
        let rest = s.records.drop_first();
        let at = below(rest, r.seq);
        lemma_below(rest, r.seq);
        let a = rest.take(at);
        let b = rest.skip(at);
        assert(t.records =~= a.push(Some(r)) + b);
        assert(rest =~= a + b);
        vstd::seq_lib::lemma_multiset_commutative(a.push(Some(r)), b);
        vstd::seq_lib::lemma_multiset_commutative(a, b);
        broadcast use vstd::seq_lib::group_to_multiset_ensures;

        assert(t.records.to_multiset() =~= rest.to_multiset().insert(Some(r)));
        if 0 <= i <= j < t.records.len() {
            assert(slot_seq(t.records[i]) <= slot_seq(t.records[j]));
        }
        assert(t.records.last() is Some);
    }
}

/// Records are found one after the other.
pub proof fn law_records_are_found_one_by_one(
    s: SeqStateView,
    found: Seq<RecordView>,
    r: RecordView,
)
    ensures
        s.with_all(Seq::empty()) == s,
        s.with_all(found.push(r)) == s.with_all(found).with(r),
{
    assert(found.push(r).drop_last() =~= found);
}

/// Where no record is known, all slots are empty.
pub proof fn law_nothing_known(kept: nat, i: int)
    ensures
        SeqStateView::unscanned(kept).next_seq is None,
        !SeqStateView::unscanned(kept).needs_gc,
        SeqStateView::unscanned(kept).records.len() == kept,
        0 <= i < kept ==> SeqStateView::unscanned(kept).records[i] is None,
{
}

/// A record that is known keeps the items from its Start to its End element, and no others are
/// kept.
pub proof fn law_what_is_kept(s: SeqStateView, i: int, n: int)
    ensures
        0 <= i < s.records.len() ==> (s.records[i] matches Some(r) ==> (r.start <= n <= r.end
            ==> s.keeps(n))),
        (forall|k: int|
            0 <= k < s.records.len() ==> (#[trigger] s.records[k] matches Some(r) ==> n < r.start
                || r.end < n)) ==> !s.keeps(n),
{
    if 0 <= i < s.records.len() && (s.records[i] matches Some(r) && r.start <= n <= r.end) {
        assert(s.records[i] matches Some(r) && r.start <= n <= r.end);
    }
}

/// Numbers go up by one, and there is none after the last. Of two next numbers the higher one
/// is kept, and a storage that offers none gets none.
pub proof fn law_numbers_go_up(n: u32, a: Option<u32>, b: Option<u32>)
    ensures
        n < u32::MAX ==> next_after(n) == Some((n + 1) as u32),
        n == u32::MAX ==> next_after(n) is None,
        later(a, b) is None <==> a is None,
        later(a, b) matches Some(c) ==> c >= a->0 && (b matches Some(d) ==> c >= d) && (c == a->0
            || b == Some(c)),
{
}

} // verus!
