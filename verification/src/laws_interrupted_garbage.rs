//! Laws of a garbage collection that was interrupted: it has lost nothing.
use crate::extract::extracted;
use crate::laws_garbage::{
    all_good, lemma_block, lemma_came_from, lemma_kept_by, lemma_left_records, lemma_moved_is_good,
    lemma_moved_records_known, moved, new_index,
};
use crate::laws_list::law_first_read_succeeds;
use crate::laws_record::law_good_record_is_extractable;
use crate::laws_seq::{law_newest_record_is_known, lemma_remembers};
use crate::model::{kept, ListView};
use crate::record::{
    good_records, highest_start, is_data, is_good_record, law_scan_finds_the_good_records,
    lemma_good_record_prefix, lemma_good_records_numbered, RecordView,
};
use crate::seq_state::SeqStateView;
use crate::storage::ItemView;
use crate::storage_node::VTable;
use vstd::prelude::*;

verus! {

/// What is left when only the first `n` items have been collected.
pub open spec fn half_collected(items: Seq<ItemView>, s: SeqStateView, n: int) -> Seq<ItemView> {
    kept(items.take(n), s) + items.skip(n)
}

/// Whether two records, each among its own items, have one number and the same data.
spec fn same_record(
    items: Seq<ItemView>,
    r: RecordView,
    others: Seq<ItemView>,
    q: RecordView,
) -> bool {
    &&& r.seq == q.seq
    &&& items.subrange(r.start + 1, r.end) == others.subrange(q.start + 1, q.end)
}

/// Where the items from one index on are those from another index on, a record there is a
/// record here.
proof fn lemma_shifted_record(
    items: Seq<ItemView>,
    r: RecordView,
    others: Seq<ItemView>,
    start: int,
)
    requires
        is_good_record(items, r),
        0 <= start,
        start + (r.end - r.start) < others.len(),
        items.subrange(r.start, r.end + 1) == others.subrange(
            start,
            start + (r.end - r.start) + 1,
        ),
    ensures
        ({
            let q = RecordView { seq: r.seq, start, end: start + (r.end - r.start) };
            is_good_record(others, q) && same_record(items, r, others, q)
        }),
{
    let q = RecordView { seq: r.seq, start, end: start + (r.end - r.start) };
    let here = items.subrange(r.start, r.end + 1);
    let there = others.subrange(q.start, q.end + 1);
    assert(here[0] == items[r.start] && there[0] == others[q.start]);
    assert(here[r.end - r.start] == items[r.end] && there[r.end - r.start] == others[q.end]);
    assert forall|k: int| q.start < k < q.end implies is_data(#[trigger] others[k]) by {
        assert(there[k - q.start] == others[k]);
        assert(here[k - q.start] == items[r.start + (k - q.start)]);
        assert(is_data(items[r.start + (k - q.start)]));
    }
    assert(items.subrange(r.start + 1, r.end) =~= here.subrange(1, r.end - r.start));
    assert(others.subrange(q.start + 1, q.end) =~= there.subrange(1, r.end - r.start));
}

/// A known record is still there.
proof fn lemma_known_is_there(
    items: Seq<ItemView>,
    s: SeqStateView,
    n: int,
    r: RecordView,
) -> (q: RecordView)
    requires
        0 <= n <= items.len(),
        is_good_record(items, r),
        s.records.contains(Some(r)),
    ensures
        is_good_record(half_collected(items, s, n), q),
        same_record(items, r, half_collected(items, s, n), q),
{
    let left = half_collected(items, s, n);
    let front = kept(items.take(n), s);
    let m = front.len() as int;
    assert(left.take(m) =~= front);
    if r.end < n {
        let q = moved(items, s, r);
        lemma_moved_is_good(items, s, r, n);
        lemma_good_record_prefix(left, m, q);
        assert(left.subrange(q.start + 1, q.end) =~= front.subrange(q.start + 1, q.end));
        q
    } else if r.start >= n {
        let start = m + (r.start - n);
        assert(items.subrange(r.start, r.end + 1) =~= left.subrange(
            start,
            start + (r.end - r.start) + 1,
        ));
        lemma_shifted_record(items, r, left, start);
        RecordView { seq: r.seq, start, end: start + (r.end - r.start) }
    } else {
        lemma_block(items, s, r, n);
        let start = new_index(items, s, r.start);
        let here = items.subrange(r.start, r.end + 1);
        let there = left.subrange(start, start + (r.end - r.start) + 1);
        let block = front.subrange(start, m);
        assert(block == items.subrange(r.start, n));
        assert forall|i: int| 0 <= i < here.len() implies here[i] == there[i] by {
            if i < n - r.start {
                assert(block[i] == items.subrange(r.start, n)[i]);
                assert(left[start + i] == front[start + i]);
            } else {
                assert(left[start + i] == items.skip(n)[start + i - m]);
            }
        }
        assert(here =~= there);
        lemma_shifted_record(items, r, left, start);
        RecordView { seq: r.seq, start, end: start + (r.end - r.start) }
    }
}

/// A record that is there was there before.
proof fn lemma_was_there(
    items: Seq<ItemView>,
    s: SeqStateView,
    n: int,
    q: RecordView,
) -> (r: RecordView)
    requires
        0 <= n <= items.len(),
        all_good(items, s),
        is_good_record(half_collected(items, s, n), q),
    ensures
        is_good_record(items, r),
        same_record(items, r, half_collected(items, s, n), q),
{
    let left = half_collected(items, s, n);
    let front = kept(items.take(n), s);
    let m = front.len() as int;
    assert(left.take(m) =~= front);
    if q.end < m {
        lemma_good_record_prefix(left, m, q);
        law_scan_finds_the_good_records(front, q);
        lemma_left_records(items, s, n);
        let r = lemma_moved_records_known(items, s, good_records(items.take(n)), q);
        law_scan_finds_the_good_records(items.take(n), r);
        lemma_good_record_prefix(items, n, r);
        lemma_moved_is_good(items, s, r, n);
        assert(left.subrange(q.start + 1, q.end) =~= front.subrange(q.start + 1, q.end));
        r
    } else if q.start >= m {
        let start = n + (q.start - m);
        assert(left.subrange(q.start, q.end + 1) =~= items.subrange(
            start,
            start + (q.end - q.start) + 1,
        ));
        lemma_shifted_record(left, q, items, start);
        RecordView { seq: q.seq, start, end: start + (q.end - q.start) }
    } else {
        let at = q.start;
        assert(left[at] == front[at]);
        let j = lemma_came_from(items.take(n), s, at);
        assert(items.take(n)[j] == items[j]);
        assert(items.take(n).take(j) =~= items.take(j));
        let known = lemma_kept_by(s, j);
        assert(is_good_record(items, known));
        if known.start < j && j < known.end {
            assert(is_data(items[j]));
        }
        assert(j == known.start);
        if known.end < n {
            // its End element lies between the ends of the record
            lemma_moved_is_good(items, s, known, n);
            let to = moved(items, s, known);
            assert(to.start == at);
            assert(left[to.end] == front[to.end]);
            assert(is_data(left[to.end]));
            assert(false);
        }
        lemma_block(items, s, known, n);
        let block = front.subrange(at, m);
        let len = q.end - q.start;
        let here = left.subrange(q.start, q.end + 1);
        let there = items.subrange(j, j + len + 1);
        assert forall|i: int| 0 <= i < here.len() implies here[i] == there[i] by {
            if i < n - j {
                assert(block[i] == items.subrange(j, n)[i]);
                assert(left[at + i] == front[at + i]);
            } else {
                assert(left[at + i] == items.skip(n)[at + i - m]);
            }
        }
        assert(here =~= there);
        lemma_shifted_record(left, q, items, j);
        RecordView { seq: q.seq, start: j, end: j + len }
    }
}

/// What a list reads for the first time after a collection by a list that knows the storage
/// was interrupted is what it would have read before it began, as long as no other good record
/// has the number of the newest.
pub proof fn law_interrupted_garbage_changes_no_read<T, V: VTable<T>>(
    list: ListView<T, V>,
    items: Seq<ItemView>,
    n: int,
    reader: ListView<T, V>,
)
    requires
        list.wf(),
        list.knows(items),
        list.seq.next_seq is Some,
        0 <= n <= items.len(),
        reader.wf(),
        reader.seq == SeqStateView::unscanned(reader.seq.records.len()),
        forall|a: RecordView, b: RecordView|
            is_good_record(items, a) && is_good_record(items, b) && a.seq == b.seq && Some(a)
                == list.seq.highest() ==> a == b,
    ensures
        reader.after_scan(half_collected(items, list.seq, n)).readable(
            half_collected(items, list.seq, n),
        ),
        reader.after_read(half_collected(items, list.seq, n)).nodes == reader.after_read(
            items,
        ).nodes,
{
    let s = list.seq;
    let k = s.records.len();
    let left = half_collected(items, s, n);
    let found = good_records(items);
    let g = good_records(left);
    law_first_read_succeeds(reader, left);
    law_first_read_succeeds(reader, items);
    lemma_good_records_numbered(items);
    lemma_good_records_numbered(left);
    lemma_remembers(k, found);
    law_newest_record_is_known(k, found, highest_start(items));
    law_newest_record_is_known(reader.seq.records.len(), found, highest_start(items));
    law_newest_record_is_known(reader.seq.records.len(), g, highest_start(left));
    assert(all_good(items, s)) by {
        assert forall|r: RecordView| #[trigger] s.records.contains(Some(r)) implies is_good_record(
            items,
            r,
        ) by {
            let i = choose|i: int| 0 <= i < s.records.len() && s.records[i] == Some(r);
            assert(found.contains(r));
            law_scan_finds_the_good_records(items, r);
        }
    }
    let was = reader.after_scan(items).seq.highest();
    let is = reader.after_scan(left).seq.highest();
    if let Some(q) = is {
        // what is newest now was there before
        law_scan_finds_the_good_records(left, q);
        let r = lemma_was_there(items, s, n, q);
        law_scan_finds_the_good_records(items, r);
        let ir = choose|i: int| 0 <= i < found.len() && found[i] == r;
        assert(found[ir].seq == r.seq);
        let h = s.records[k - 1]->0;
        assert(s.highest() == Some(h));
        assert(s.records.contains(Some(h)));
        // what was newest is still there
        let hq = lemma_known_is_there(items, s, n, h);
        law_scan_finds_the_good_records(left, hq);
        let ih = choose|i: int| 0 <= i < g.len() && g[i] == hq;
        assert(g[ih].seq == hq.seq);
        assert(r.seq == h.seq);
        assert(r == h);
        // and the reader sees the same one
        let w = was->0;
        law_scan_finds_the_good_records(items, w);
        let iw = choose|i: int| 0 <= i < found.len() && found[i] == w;
        law_scan_finds_the_good_records(items, h);
        let i2 = choose|i: int| 0 <= i < found.len() && found[i] == h;
        assert(found[i2].seq == h.seq && found[iw].seq == w.seq);
        assert(w == h);
        law_good_record_is_extractable(items, h);
        law_good_record_is_extractable(left, q);
        assert(extracted(left, q) == extracted(items, h));
    } else {
        if let Some(w) = was {
            law_scan_finds_the_good_records(items, w);
            assert(found.len() > 0);
            let h = s.records[k - 1]->0;
            assert(s.highest() == Some(h));
            assert(s.records.contains(Some(h)));
            let hq = lemma_known_is_there(items, s, n, h);
            law_scan_finds_the_good_records(left, hq);
            assert(g.len() > 0);
        }
    }
}

} // verus!
