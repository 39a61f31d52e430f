//! The cache of what a scan of the storage has found.
use crate::elem::SeqNo;
use crate::record::RecordView;
use vstd::prelude::*;
use vstd::slice::slice_to_vec;

verus! {

/// A range of storage items, both ends included
#[derive(Clone, Copy, Debug, PartialEq, Eq, Structural)]
pub struct ItemRange {
    /// The index of the first item
    pub start: usize,
    /// The index of the last item
    pub end: usize,
}

/// The metadata of a verified "Write Record"
///
/// This records the existence of a valid Write Record, that had a well formed
/// Start, Data (repeated), End sequence of elements, AND had a valid CRC.
///
/// This is used to remember both the sequence number and iterator-range of this
/// valid WriteRecord, so we can cache that discovery.
#[derive(Clone, Copy, Debug, PartialEq, Eq, Structural)]
pub struct GoodWriteRecord {
    /// The sequence number of the valid Write Record
    pub seq: SeqNo,
    /// The range of storage iterator nodes that this Write Record resides in
    pub range: ItemRange,
}

impl GoodWriteRecord {
    /// The record as the specification of records has it.
    pub open spec fn view(&self) -> RecordView {
        RecordView {
            seq: self.seq@,
            start: self.range.start as int,
            end: self.range.end as int,
        }
    }
}

/// The record in a slot, if there is one.
pub open spec fn slot_view(slot: Option<GoodWriteRecord>) -> Option<RecordView> {
    match slot {
        Some(r) => Some(r@),
        None => None,
    }
}

/// The sequence number in a slot, or 0 in an empty one.
pub open spec fn slot_seq(slot: Option<RecordView>) -> u32 {
    match slot {
        Some(r) => r.seq,
        None => 0,
    }
}

/// What a [`SeqState`] holds.
pub struct SeqStateView {
    /// The number of the next write record, once the storage has been scanned.
    pub next_seq: Option<u32>,
    /// The newest good records, from the oldest to the newest, behind the empty slots.
    pub records: Seq<Option<RecordView>>,
    /// Whether garbage may have to be collected.
    pub needs_gc: bool,
}

impl SeqStateView {
    /// The newest record.
    pub open spec fn highest(self) -> Option<RecordView> {
        self.records.last()
    }

    /// Nothing known, with `kept` empty slots.
    pub open spec fn unscanned(kept: nat) -> Self {
        SeqStateView {
            next_seq: None,
            records: Seq::new(kept, |i: int| None::<RecordView>),
            needs_gc: false,
        }
    }

    /// The slots are in the order of their sequence numbers, which are not 0, and the next
    /// number is above all of them.
    pub open spec fn wf(self) -> bool {
        &&& forall|i: int, j: int|
            0 <= i <= j < self.records.len() ==> slot_seq(#[trigger] self.records[i]) <= slot_seq(
                #[trigger] self.records[j],
            )
        &&& forall|i: int|
            0 <= i < self.records.len() ==> (#[trigger] self.records[i] matches Some(r) ==> r.seq
                > 0)
        &&& forall|i: int|
            0 <= i < self.records.len() && self.next_seq is Some ==> slot_seq(
                #[trigger] self.records[i],
            ) < self.next_seq->0
    }

    /// The state after a good record has been found or written.
    ///
    /// The oldest slot is given up for it, unless that holds a newer record. The slots stay
    /// in order; among records of one number the new one comes first.
    pub open spec fn with(self, r: RecordView) -> Self {
        if slot_seq(self.records.first()) > r.seq {
            self
        } else {
            let rest = self.records.drop_first();
            let records = rest.insert(below(rest, r.seq), Some(r));
            SeqStateView {
                next_seq: next_after(slot_seq(records.last())),
                records,
                needs_gc: true,
            }
        }
    }

    /// The state after good records have been found, one after the other.
    pub open spec fn with_all(self, found: Seq<RecordView>) -> Self
        decreases found.len(),
    {
        if found.len() == 0 {
            self
        } else {
            self.with_all(found.drop_last()).with(found.last())
        }
    }

    /// The state after a scan that has found the given good records, and no Start element
    /// with a number above `top`: the next number is above all of them, so that the number of
    /// a record that was interrupted is not used again.
    pub open spec fn scanned(self, found: Seq<RecordView>, top: u32) -> Self {
        let s = self.with_all(found);
        let newest = slot_seq(s.highest());
        SeqStateView {
            next_seq: next_after(if top > newest {
                top
            } else {
                newest
            }),
            ..s
        }
    }

    /// The state after an attempt to write the next record has failed: its number is spent.
    pub open spec fn without_next(self) -> Self {
        match self.next_seq {
            Some(seq) => SeqStateView { next_seq: next_after(seq), ..self },
            None => self,
        }
    }

    /// Whether one of the known records contains the item at `index`.
    pub open spec fn keeps(self, index: int) -> bool {
        exists|i: int|
            0 <= i < self.records.len() && (#[trigger] self.records[i] matches Some(r) && r.start
                <= index <= r.end)
    }
}

/// The number after `seq`, unless `seq` is the last.
pub open spec fn next_after(seq: u32) -> Option<u32> {
    if seq < u32::MAX {
        Some((seq + 1) as u32)
    } else {
        None
    }
}

/// The later of two next numbers, where there are both.
pub open spec fn later(next: Option<u32>, known: Option<u32>) -> Option<u32> {
    match (next, known) {
        (Some(a), Some(b)) => if b > a {
            Some(b)
        } else {
            Some(a)
        },
        _ => next,
    }
}

/// The number of slots up to and with the last one whose sequence number is below `seq`.
pub open spec fn below(slots: Seq<Option<RecordView>>, seq: u32) -> int
    decreases slots.len(),
{
    if slots.len() == 0 {
        0
    } else if slot_seq(slots.last()) < seq {
        slots.len() as int
    } else {
        below(slots.drop_last(), seq)
    }
}

/// What stands before and behind that point.
pub proof fn lemma_below(slots: Seq<Option<RecordView>>, seq: u32)
    ensures
        0 <= below(slots, seq) <= slots.len(),
        below(slots, seq) > 0 ==> slot_seq(slots[below(slots, seq) - 1]) < seq,
        forall|i: int|
            below(slots, seq) <= i < slots.len() ==> slot_seq(#[trigger] slots[i]) >= seq,
    decreases slots.len(),
{
    if slots.len() > 0 && slot_seq(slots.last()) >= seq {
        lemma_below(slots.drop_last(), seq);
        assert forall|i: int| below(slots, seq) <= i < slots.len() implies slot_seq(
            #[trigger] slots[i],
        ) >= seq by {
            if i < slots.len() - 1 {
                assert(slots.drop_last()[i] == slots[i]);
            }
        }
    }
}

/// The slots stay in order when a record is put in.
pub proof fn lemma_with_wf(s: SeqStateView, r: RecordView)
    requires
        s.wf(),
        s.records.len() > 0,
        r.seq > 0,
    ensures
        s.with(r).wf(),
        s.with(r).records.len() == s.records.len(),
        slot_seq(s.records.first()) <= r.seq ==> s.with(r).highest() is Some,
{
    if slot_seq(s.records.first()) <= r.seq {
        let rest = s.records.drop_first();
        let at = below(rest, r.seq);
        lemma_below(rest, r.seq);
        let records = rest.insert(at, Some(r));
        assert forall|i: int, j: int| 0 <= i <= j < rest.len() implies slot_seq(
            #[trigger] rest[i],
        ) <= slot_seq(#[trigger] rest[j]) by {
            assert(rest[i] == s.records[i + 1] && rest[j] == s.records[j + 1]);
        }
        assert forall|i: int, j: int| 0 <= i <= j < records.len() implies slot_seq(
            #[trigger] records[i],
        ) <= slot_seq(#[trigger] records[j]) by {
            let a = if i < at {
                i
            } else {
                i - 1
            };
            let b = if j < at {
                j
            } else {
                j - 1
            };
            if i != at {
                assert(records[i] == rest[a]);
                if i < at {
                    assert(slot_seq(rest[i]) <= slot_seq(rest[at - 1]));
                }
            }
            if j != at {
                assert(records[j] == rest[b]);
            }
        }
        assert forall|i: int| 0 <= i < records.len() implies (#[trigger] records[i] matches Some(
            x,
        ) ==> x.seq > 0) by {
            if i < at {
                assert(records[i] == s.records[i + 1]);
            } else if i > at {
                assert(records[i] == s.records[i]);
            }
        }
        assert(records[at] == Some(r));
        assert(slot_seq(records[at]) <= slot_seq(records[records.len() - 1]));
    }
}

/// The slots stay in order when records are put in.
pub proof fn lemma_with_all_wf(s: SeqStateView, found: Seq<RecordView>)
    requires
        s.wf(),
        s.records.len() > 0,
        forall|i: int| 0 <= i < found.len() ==> (#[trigger] found[i]).seq > 0,
    ensures
        s.with_all(found).wf(),
        s.with_all(found).records.len() == s.records.len(),
    decreases found.len(),
{
    if found.len() > 0 {
        assert forall|i: int| 0 <= i < found.len() - 1 implies (
        #[trigger] found.drop_last()[i]).seq > 0 by {
            assert(found.drop_last()[i] == found[i]);
        }
        lemma_with_all_wf(s, found.drop_last());
        lemma_with_wf(s.with_all(found.drop_last()), found.last());
    }
}

/// A scan leaves the slots in order.
pub proof fn lemma_scanned_wf(s: SeqStateView, found: Seq<RecordView>, top: u32)
    requires
        s.wf(),
        s.records.len() > 0,
        forall|i: int| 0 <= i < found.len() ==> (#[trigger] found[i]).seq > 0,
    ensures
        s.scanned(found, top).wf(),
        s.scanned(found, top).records.len() == s.records.len(),
{
    lemma_with_all_wf(s, found);
    lemma_highest(s.with_all(found));
}

/// No record has a number above that of the newest.
pub proof fn lemma_highest(s: SeqStateView)
    requires
        s.wf(),
        s.records.len() > 0,
    ensures
        forall|i: int|
            0 <= i < s.records.len() ==> slot_seq(#[trigger] s.records[i]) <= slot_seq(
                s.highest(),
            ),
{
    let n = s.records.len();
    assert forall|i: int| 0 <= i < n implies slot_seq(#[trigger] s.records[i]) <= slot_seq(
        s.highest(),
    ) by {
        assert(slot_seq(s.records[i]) <= slot_seq(s.records[n - 1]));
    }
}

/// The current cache state of the StorageList
///
/// This serves as a cache that is loaded on the initial scan of the external
/// storage. It retains what our next sequence number should be, and what we consider
/// the most recent, valid, Write Records to be, and where they reside on the
/// external flash.
///
/// This is populated when we perform the first `process_reads`, updated
/// during each `process_writes`, and invalidated and re-calculated
/// during each successful `process_garbage` call.
pub struct SeqState<const KEPT_RECORDS: usize> {
    /// Next Sequence Number. Is None if we have not performed the initial scan of the storage
    pub next_seq: Option<SeqNo>,
    /// The most recent, valid, Write Records (as sorted by their sequence numbers)
    ///
    /// We retain multiple for the purpose of garbage collection: we don't necessarily want to
    /// invalidate ALL old records, in the off chance that our LATEST written record becomes
    /// corrupt. Users can set this to just one though if they don't care about redundancy
    pub last_records: Vec<Option<GoodWriteRecord>>,
    /// Do we need to perform a garbage collection pass?
    ///
    /// This is set after each record that a scan finds or a write stores.
    pub needs_gc: bool,
}

impl<const KEPT_RECORDS: usize> SeqState<KEPT_RECORDS> {
    /// What the state holds.
    pub open spec fn view(&self) -> SeqStateView {
        SeqStateView {
            next_seq: match self.next_seq {
                Some(seq) => Some(seq@),
                None => None,
            },
            records: self.last_records@.map_values(
                |slot: Option<GoodWriteRecord>| slot_view(slot),
            ),
            needs_gc: self.needs_gc,
        }
    }

    /// There is at least one slot, as many as records are kept, and the slots are in order.
    pub open spec fn wf(&self) -> bool {
        &&& KEPT_RECORDS > 0
        &&& self.last_records@.len() == KEPT_RECORDS
        &&& self@.wf()
    }

    /// Nothing known.
    pub fn new() -> (r: Self)
        ensures
            r@ == SeqStateView::unscanned(KEPT_RECORDS as nat),
            KEPT_RECORDS > 0 ==> r.wf(),
    {
        let mut last_records: Vec<Option<GoodWriteRecord>> = Vec::new();
        let mut n: usize = 0;
        while n < KEPT_RECORDS
            invariant
                n <= KEPT_RECORDS,
                last_records@.len() == n,
                forall|i: int| 0 <= i < n ==> #[trigger] last_records@[i] is None,
            decreases KEPT_RECORDS - n,
        {
            last_records.push(None);
            n += 1;
        }
        let r = SeqState { next_seq: None, last_records, needs_gc: false };
        assert(r@.records =~= SeqStateView::unscanned(KEPT_RECORDS as nat).records);
        r
    }

    /// A copy of the state.
    pub fn copy(&self) -> (r: Self)
        ensures
            r@ == self@,
            self.wf() ==> r.wf(),
    {
        SeqState {
            next_seq: self.next_seq,
            last_records: slice_to_vec(self.last_records.as_slice()),
            needs_gc: self.needs_gc,
        }
    }

    /// Have we hydrated from the external flash?
    pub fn initial_scan_completed(&self) -> (r: bool)
        ensures
            r == self@.next_seq is Some,
    {
        self.next_seq.is_some()
    }

    /// What is the highest sequence number we've seen in external flash, if any?
    pub fn highest_seen(&self) -> (r: Option<GoodWriteRecord>)
        requires
            self.wf(),
        ensures
            slot_view(r) == self@.highest(),
    {
        let n: usize = self.last_records.len();
        self.last_records[n - 1]
    }

    /// Insert a known-good sequence number
    pub fn insert_good(&mut self, rec: GoodWriteRecord)
        requires
            old(self).wf(),
        ensures
            final(self).wf(),
            final(self)@ == old(self)@.with(rec@),
    {
        let seq: u32 = rec.seq.get();
        let ghost before = self@;
        proof {
            lemma_with_wf(before, rec@);
        }
        if Self::seq_in(&self.last_records[0]) > seq {
            // We have newer records already
            return;
        }
        let ghost rest = before.records.drop_first();
        self.last_records.remove(0);
        let mut at: usize = self.last_records.len();
        assert(self@.records =~= rest);
        assert(rest.take(at as int) =~= rest);
        while at > 0 && Self::seq_in(&self.last_records[at - 1]) >= seq
            invariant
                at <= self.last_records@.len(),
                self@.records == rest,
                below(rest, seq) == below(rest.take(at as int), seq),
            decreases at,
        {
            assert(rest.take(at as int).drop_last() =~= rest.take(at - 1));
            assert(rest.take(at as int).last() == slot_view(self.last_records@[at - 1]));
            at -= 1;
        }
        proof {
            if at > 0 {
                assert(rest.take(at as int).last() == slot_view(self.last_records@[at - 1]));
            }
            assert(below(rest, seq) == at);
        }
        self.last_records.insert(at, Some(rec));
        assert(self@.records =~= rest.insert(at as int, Some(rec@)));
        let n: usize = self.last_records.len();
        self.next_seq = match self.last_records[n - 1] {
            Some(newest) => newest.seq.checked_next(),
            None => None,
        };
        self.needs_gc = true;
        assert(self@ == before.with(rec@));
    }

    /// The sequence number in a slot, or 0 in an empty one.
    fn seq_in(slot: &Option<GoodWriteRecord>) -> (seq: u32)
        ensures
            seq == slot_seq(slot_view(*slot)),
    {
        match slot {
            Some(r) => r.seq.get(),
            None => 0,
        }
    }

    /// Set the next sequence number at the end of a scan: above that of the newest record, and
    /// above `top`.
    pub fn number_above(&mut self, top: u32)
        requires
            old(self).wf(),
        ensures
            final(self).wf(),
            final(self)@ == old(self)@.scanned(Seq::empty(), top),
    {
        proof {
            lemma_highest(self@);
        }
        let n: usize = self.last_records.len();
        let newest: u32 = Self::seq_in(&self.last_records[n - 1]);
        let last: u32 = if top > newest {
            top
        } else {
            newest
        };
        self.next_seq = if last < u32::MAX {
            SeqNo::new(last + 1)
        } else {
            None
        };
        assert(self@.records =~= old(self)@.records);
    }

    /// Keep the later one of the next sequence number and that of another state.
    pub fn keep_later(&mut self, other: &Self)
        requires
            old(self).wf(),
        ensures
            final(self).wf(),
            final(self)@ == (SeqStateView {
                next_seq: later(old(self)@.next_seq, other@.next_seq),
                ..old(self)@
            }),
    {
        if let (Some(next), Some(known)) = (self.next_seq, other.next_seq) {
            if known.get() > next.get() {
                self.next_seq = Some(known);
            }
        }
        assert(self@.records =~= old(self)@.records);
    }

    /// Give up the next sequence number, after a record could not be written under it.
    pub fn skip_seq(&mut self)
        requires
            old(self).wf(),
        ensures
            final(self).wf(),
            final(self)@ == old(self)@.without_next(),
    {
        self.next_seq = match self.next_seq {
            Some(seq) => seq.checked_next(),
            None => None,
        };
        assert(self@.records =~= old(self)@.records);
    }

    /// Whether a collection removes the item at this index: one that does not decode, or
    /// belongs to none of the good records
    pub fn collects(&self, decodes: bool, n: usize) -> (r: bool)
        ensures
            r == !(decodes && self@.keeps(n as int)),
    {
        // If it doesn't decode: yeet
        // If it's not in a good range: yeet
        !decodes || !self.last_records_contain(n)
    }

    /// Whether any of the good records contains the item at this index
    pub fn last_records_contain(&self, n: usize) -> (r: bool)
        ensures
            r == self@.keeps(n as int),
    {
        let mut i: usize = 0;
        while i < self.last_records.len()
            invariant
                i <= self.last_records@.len(),
                forall|k: int|
                    0 <= k < i ==> !(#[trigger] self@.records[k] matches Some(r) && r.start <= n
                        <= r.end),
            decreases self.last_records@.len() - i,
        {
            assert(self@.records[i as int] == slot_view(self.last_records@[i as int]));
            if let Some(r) = &self.last_records[i] {
                if r.range.start <= n && n <= r.range.end {
                    return true;
                }
            }
            i += 1;
        }
        false
    }
}

} // verus!
