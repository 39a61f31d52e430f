//! Reading a record back after it has been written, item by item.
//!
//! [`Verify::step`] takes what the storage has yielded and decides; it does no I/O itself.
use crate::crc32::{crc32_of, Crc32};
use crate::elem::{Elem, ElemView};
use crate::extract::{data_end, Read};
use crate::record::{data_of, is_data, is_good_record, RecordView};
use crate::scan::read_elem;
use crate::seq_state::ItemRange;
use crate::storage::{count, counted, total_len, ItemView};
use crate::write_record::WriteReport;
use vstd::prelude::*;

verus! {

/// The index of the first Start element with the given number.
pub open spec fn first_start(items: Seq<ItemView>, seq: u32) -> Option<int>
    decreases items.len(),
{
    if items.len() == 0 {
        None
    } else {
        match first_start(items.drop_last(), seq) {
            Some(at) => Some(at),
            None => if items.last().elem == Some(ElemView::Start { seq }) {
                Some(items.len() - 1)
            } else {
                None
            },
        }
    }
}

/// The record that a read-back finds, if it is the one that has been written: behind the
/// first Start element with the number `seq` there are `ct` data elements, at least one, with
/// the checksum `crc`, and an End element with this number and checksum.
pub open spec fn verified(items: Seq<ItemView>, seq: u32, crc: u32, ct: nat) -> Option<
    RecordView,
> {
    match first_start(items, seq) {
        Some(start) => {
            let end = data_end(items, start + 1);
            if end < items.len() && items[end].elem == Some(ElemView::End { seq, crc }) && end
                - start - 1 == ct && ct > 0 && crc32_of(data_of(items.subrange(start + 1, end))) == crc {
                Some(RecordView { seq, start, end })
            } else {
                None
            }
        },
        None => None,
    }
}

/// The first Start element with a number is one, and the items before it are none.
pub proof fn lemma_first_start(items: Seq<ItemView>, seq: u32)
    ensures
        match first_start(items, seq) {
            Some(at) => {
                &&& 0 <= at < items.len()
                &&& items[at].elem == Some(ElemView::Start { seq })
                &&& forall|k: int|
                    0 <= k < at ==> (#[trigger] items[k]).elem != Some(ElemView::Start { seq })
            },
            None => forall|k: int|
                0 <= k < items.len() ==> (#[trigger] items[k]).elem != Some(
                    ElemView::Start { seq },
                ),
        },
    decreases items.len(),
{
    if items.len() > 0 {
        let front = items.drop_last();
        lemma_first_start(front, seq);
        match first_start(items, seq) {
            Some(at) => {
                assert forall|k: int| 0 <= k < at implies (#[trigger] items[k]).elem != Some(
                    ElemView::Start { seq },
                ) by {
                    assert(front[k] == items[k]);
                }
            },
            None => {
                assert forall|k: int| 0 <= k < items.len() implies (#[trigger] items[k]).elem
                    != Some(ElemView::Start { seq }) by {
                    if k < front.len() {
                        assert(front[k] == items[k]);
                    }
                }
            },
        }
    }
}

/// The first Start element with a number stays the first when items follow.
pub proof fn lemma_first_start_extend(items: Seq<ItemView>, n: int, seq: u32)
    requires
        0 <= n <= items.len(),
        first_start(items.take(n), seq) is Some,
    ensures
        first_start(items, seq) == first_start(items.take(n), seq),
{
    lemma_first_start(items, seq);
    lemma_first_start(items.take(n), seq);
    let at = first_start(items.take(n), seq)->0;
    assert(items.take(n)[at] == items[at]);
    match first_start(items, seq) {
        Some(other) => {
            if other < at {
                assert(items.take(n)[other] == items[other]);
            }
        },
        None => {},
    }
}

/// Where only data elements stand from `from` to `to`, and no data element at `to`, the data
/// ends there.
pub proof fn lemma_data_end(items: Seq<ItemView>, from: int, to: int)
    requires
        0 <= from <= to <= items.len(),
        forall|k: int| from <= k < to ==> is_data(#[trigger] items[k]),
        to < items.len() ==> !is_data(items[to]),
    ensures
        data_end(items, from) == to,
    decreases to - from,
{
    if from < to {
        lemma_data_end(items, from + 1, to);
    }
}

/// What stands from `from` to the end of the data there.
pub proof fn lemma_data_end_bounds(items: Seq<ItemView>, from: int)
    requires
        0 <= from <= items.len(),
    ensures
        from <= data_end(items, from) <= items.len(),
        forall|k: int| from <= k < data_end(items, from) ==> is_data(#[trigger] items[k]),
        data_end(items, from) < items.len() ==> !is_data(items[data_end(items, from)]),
    decreases items.len() - from,
{
    if from < items.len() && is_data(items[from]) {
        lemma_data_end_bounds(items, from + 1);
        assert forall|k: int| from <= k < data_end(items, from) implies is_data(
            #[trigger] items[k],
        ) by {
            if k > from {
                assert(from + 1 <= k < data_end(items, from + 1));
            }
        }
    }
}

/// A record that has been read back is a good write record.
pub proof fn law_verified_is_good(items: Seq<ItemView>, seq: u32, crc: u32, ct: nat)
    requires
        seq != 0,
    ensures
        verified(items, seq, crc, ct) matches Some(r) ==> is_good_record(items, r) && r.seq == seq,
{
    if verified(items, seq, crc, ct) is Some {
        let r = verified(items, seq, crc, ct)->0;
        lemma_first_start(items, seq);
        lemma_data_end_bounds(items, r.start + 1);
    }
}

/// What to do after a step of a read-back
#[derive(Clone, Copy, Debug, PartialEq, Eq, Structural)]
pub enum VerifyStep {
    /// Read the next item
    Continue,
    /// The record has been found, in the given range
    Done(ItemRange),
    /// The record is not what has been written
    Mismatch,
    /// There is no such record
    Inconsistent,
    /// Reading has failed
    ReadFailed,
}

/// A read-back in progress
pub struct Verify {
    rpt: WriteReport,
    start: Option<usize>,
    crc: Crc32,
    ct: usize,
    seen: usize,
    total_bytes_read: usize,
    ghost_items: Ghost<Seq<ItemView>>,
}

impl Verify {
    /// What has been written.
    pub closed spec fn report(&self) -> WriteReport {
        self.rpt
    }

    /// The items that have been seen.
    pub closed spec fn items(&self) -> Seq<ItemView> {
        self.ghost_items@
    }

    /// Behind the first Start element with the number of the record only data elements have
    /// been seen.
    pub open spec fn only_data(&self) -> bool {
        first_start(self.items(), self.report().seq@) matches Some(start) ==> forall|k: int|
            start < k < self.items().len() ==> is_data(#[trigger] self.items()[k])
    }

    /// The fields say of the seen items what they are meant to.
    pub closed spec fn wf(&self) -> bool {
        let items = self.items();
        &&& self.seen == items.len()
        &&& self.total_bytes_read == counted(total_len(items))
        &&& self.only_data()
        &&& match self.start {
            Some(start) => {
                &&& first_start(items, self.report().seq@) == Some(start as int)
                &&& start < items.len()
                &&& self.crc@ == data_of(items.skip(start + 1))
                &&& self.ct == items.len() - start - 1
            },
            None => {
                &&& first_start(items, self.report().seq@) is None
                &&& self.crc@ == Seq::<u8>::empty()
                &&& self.ct == 0
            },
        }
    }

    /// What [`Self::wf`] says of the items.
    pub proof fn lemma_wf(&self)
        requires
            self.wf(),
        ensures
            self.only_data(),
    {
    }

    /// Begin to read back what has been written.
    pub fn new(rpt: WriteReport) -> (r: Self)
        ensures
            r.wf(),
            r.report() == rpt,
            r.items() == Seq::<ItemView>::empty(),
    {
        Verify {
            rpt,
            start: None,
            crc: Crc32::new(),
            ct: 0,
            seen: 0,
            total_bytes_read: 0,
            ghost_items: Ghost(Seq::empty()),
        }
    }

    /// What the next answer of the storage means.
    pub open spec fn answered(&self, read: Read<'_>) -> VerifyStep {
        let items = self.items();
        let rpt = self.report();
        match (first_start(items, rpt.seq@), read) {
            (_, Read::Failed) => VerifyStep::ReadFailed,
            (None, Read::End) => VerifyStep::Inconsistent,
            (None, Read::Item(_, _)) => VerifyStep::Continue,
            (Some(_), Read::End) => VerifyStep::Mismatch,
            (Some(start), Read::Item(data, _)) => match read_elem(data) {
                Some(ElemView::Data { .. }) => VerifyStep::Continue,
                Some(ElemView::End { seq, crc }) => if seq == rpt.seq@ && crc == rpt.crc
                    && items.len() - start - 1 == rpt.ct && rpt.ct > 0 && crc32_of(
                    data_of(items.skip(start + 1)),
                ) == rpt.crc {
                    VerifyStep::Done(
                        ItemRange { start: start as usize, end: items.len() as usize },
                    )
                } else {
                    VerifyStep::Mismatch
                },
                _ => VerifyStep::Mismatch,
            },
        }
    }

    /// Take the storage's answer to a request for the next item.
    pub fn step(&mut self, read: Read<'_>) -> (r: VerifyStep)
        requires
            old(self).wf(),
            read is Item ==> old(self).items().len() < usize::MAX,
        ensures
            r == old(self).answered(read),
            final(self).report() == old(self).report(),
            match r {
                VerifyStep::Continue => {
                    &&& read is Item
                    &&& final(self).wf()
                    &&& final(self).items() == old(self).items().push(
                        (ItemView { elem: read_elem(read->Item_0), len: read->Item_1 as nat }),
                    )
                },
                VerifyStep::Done(_) => {
                    &&& read is Item
                    &&& final(self).total_count() == counted(
                        total_len(old(self).items()) + read->Item_1 as nat,
                    )
                },
                _ => true,
            },
    {
        match read {
            Read::Failed => VerifyStep::ReadFailed,
            Read::End => match self.start {
                Some(_) => VerifyStep::Mismatch,
                None => VerifyStep::Inconsistent,
            },
            Read::Item(data, len) => {
                let ghost items = self.items();
                let ghost item = ItemView { elem: read_elem(data), len: len as nat };
                let ghost after = items.push(item);
                let seq: u32 = self.rpt.seq.get();
                proof {
                    assert(after.drop_last() =~= items);
                    assert(after.last() == item);
                }
                self.total_bytes_read = count(self.total_bytes_read, len);
                match self.start {
                    None => {
                        if let Some(Elem::Start { seq_no }) = data {
                            if seq_no.get() == seq {
                                self.start = Some(self.seen);
                                assert(after.skip(self.seen + 1) =~= Seq::<ItemView>::empty());
                            }
                        }
                        self.seen = self.seen + 1;
                        proof {
                            self.ghost_items@ = after;
                        }
                        VerifyStep::Continue
                    },
                    Some(start) => match data {
                        Some(Elem::Data { data }) => {
                            self.crc.update(data.key_val());
                            self.ct = self.ct + 1;
                            self.seen = self.seen + 1;
                            proof {
                                assert(after.skip(start + 1).drop_last() =~= items.skip(start + 1));
                                assert(after.skip(start + 1).last() == item);
                                self.ghost_items@ = after;
                                assert forall|k: int| start < k < after.len() implies is_data(
                                    #[trigger] after[k],
                                ) by {
                                    if k < items.len() {
                                        assert(is_data(items[k]));
                                    }
                                }
                            }
                            VerifyStep::Continue
                        },
                        Some(Elem::End { seq_no, calc_crc }) => {
                            let mut crc = Crc32::new();
                            core::mem::swap(&mut crc, &mut self.crc);
                            let check_crc: u32 = crc.finalize();
                            let seq_chk = seq_no.get() == seq;
                            let crc_chk1 = check_crc == self.rpt.crc;
                            let crc_chk2 = calc_crc == self.rpt.crc;
                            let ctr_chk = self.ct == self.rpt.ct && self.ct > 0;
                            if seq_chk && crc_chk1 && crc_chk2 && ctr_chk {
                                VerifyStep::Done(ItemRange { start, end: self.seen })
                            } else {
                                VerifyStep::Mismatch
                            }
                        },
                        _ => VerifyStep::Mismatch,
                    },
                }
            },
        }
    }

    /// The bytes that the seen items take, with the one that ended the read-back.
    pub closed spec fn total_count(&self) -> usize {
        self.total_bytes_read
    }

    /// The bytes that the seen items take, with the one that ended the read-back.
    pub fn total_bytes_read(&self) -> (n: usize)
        ensures
            n == self.total_count(),
    {
        self.total_bytes_read
    }
}

/// Where only data elements stand before `at` behind the first Start element with the number
/// of the record, the item at `at` decides whether the record is read back, unless it is one
/// more data element.
pub proof fn lemma_verifying(items: Seq<ItemView>, rpt: WriteReport, at: int)
    requires
        0 <= at <= items.len(),
        first_start(items.take(at), rpt.seq@) matches Some(start) ==> forall|k: int|
            start < k < at ==> is_data(#[trigger] items.take(at)[k]),
    ensures
        ({
            let seen = items.take(at);
            match first_start(seen, rpt.seq@) {
                None => at == items.len() ==> first_start(items, rpt.seq@) is None,
                Some(start) => {
                    &&& 0 <= start < at
                    &&& first_start(items, rpt.seq@) == Some(start)
                    &&& (at == items.len() || !is_data(items[at])) ==> data_end(items, start + 1)
                        == at && items.subrange(start + 1, at) == seen.skip(start + 1)
                },
            }
        }),
{
    let seen = items.take(at);
    lemma_first_start(seen, rpt.seq@);
    match first_start(seen, rpt.seq@) {
        None => {
            if at == items.len() {
                assert(seen =~= items);
            }
        },
        Some(start) => {
            lemma_first_start_extend(items, at, rpt.seq@);
            if at == items.len() || !is_data(items[at]) {
                assert forall|k: int| start + 1 <= k < at implies is_data(#[trigger] items[k]) by {
                    assert(is_data(seen[k]));
                }
                lemma_data_end(items, start + 1, at);
                assert(items.subrange(start + 1, at) =~= seen.skip(start + 1));
            }
        },
    }
}

/// What the next item of a storage means to a read-back: it looks for the Start element with
/// the number, then for data elements, and then for the End element that was written, behind as
/// many data elements and with the checksum that were written.
pub proof fn law_what_a_read_back_expects(verify: &Verify, data: Option<Elem<'_>>, len: usize, k: int)
    ensures
        ({
            let items = verify.items();
            let rpt = verify.report();
            let step = verify.answered(Read::Item(data, len));
            &&& verify.answered(Read::Failed) == VerifyStep::ReadFailed
            &&& (forall|j: int|
                0 <= j < items.len() ==> (#[trigger] items[j]).elem != Some(
                    ElemView::Start { seq: rpt.seq@ },
                )) ==> step == VerifyStep::Continue && verify.answered(Read::End)
                == VerifyStep::Inconsistent
            &&& 0 <= k < items.len() && items[k].elem == Some(ElemView::Start { seq: rpt.seq@ })
                && (forall|j: int|
                0 <= j < k ==> (#[trigger] items[j]).elem != Some(
                    ElemView::Start { seq: rpt.seq@ },
                )) ==> {
                &&& verify.answered(Read::End) == VerifyStep::Mismatch
                &&& step == (match data {
                    Some(Elem::Data { .. }) => VerifyStep::Continue,
                    Some(Elem::End { seq_no, calc_crc }) => if seq_no@ == rpt.seq@ && calc_crc
                        == rpt.crc && items.len() - k - 1 == rpt.ct && rpt.ct > 0 && crc32_of(
                        data_of(items.skip(k + 1)),
                    ) == rpt.crc {
                        VerifyStep::Done(
                            ItemRange { start: k as usize, end: items.len() as usize },
                        )
                    } else {
                        VerifyStep::Mismatch
                    },
                    _ => VerifyStep::Mismatch,
                })
            }
        }),
{
    let items = verify.items();
    let seq = verify.report().seq@;
    lemma_first_start(items, seq);
    if let Some(at) = first_start(items, seq) {
        assert(items[at].elem == Some(ElemView::Start { seq }));
    }
}

} // verus!
