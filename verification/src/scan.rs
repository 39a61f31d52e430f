//! The initial scan of a storage, item by item.
//!
//! [`Scan::step`] takes what the storage has yielded and decides; it does no I/O itself.
use crate::crc32::Crc32;
use crate::elem::{Elem, ElemView, SeqNo};
use crate::record::{
    data_of, good_records, highest_start, is_data, is_good_record, lemma_open_start, open_start,
    record_closed_by_last, RecordView,
};
use crate::seq_state::{GoodWriteRecord, ItemRange, SeqState, SeqStateView};
use crate::storage::{count, counted, total_len, ItemView};
use vstd::prelude::*;

verus! {

/// The element that has been read, or that none could be.
pub open spec fn read_elem(data: Option<Elem<'_>>) -> Option<ElemView> {
    match data {
        Some(elem) => Some(elem@),
        None => None,
    }
}

/// A scan in progress
pub struct Scan<const KEPT_RECORDS: usize> {
    /// What is known with the records found so far
    seq_state: SeqState<KEPT_RECORDS>,
    /// The record that has been started: its number, and the index of its start
    current: Option<(SeqNo, usize)>,
    /// The checksum of the data of that record
    crc: Crc32,
    /// The highest number of a Start element that has been seen
    top: u32,
    /// How many items have been seen
    seen: usize,
    /// How many bytes they take
    bytes_read: usize,
    /// The state that the scan started from, and the items that have been seen
    ghost_state: Ghost<(SeqStateView, Seq<ItemView>)>,
}

impl<const KEPT_RECORDS: usize> Scan<KEPT_RECORDS> {
    /// The state that the scan started from.
    pub closed spec fn begun(&self) -> SeqStateView {
        self.ghost_state@.0
    }

    /// The items that have been seen.
    pub closed spec fn items(&self) -> Seq<ItemView> {
        self.ghost_state@.1
    }

    /// The fields say of the seen items what they are meant to.
    pub closed spec fn wf(&self) -> bool {
        let items = self.items();
        &&& self.seq_state.wf()
        &&& self.seq_state@ == self.begun().with_all(good_records(items))
        &&& self.top == highest_start(items)
        &&& self.seen == items.len()
        &&& self.bytes_read == counted(total_len(items))
        &&& match self.current {
            Some((seq, at)) => {
                &&& open_start(items) == Some(at as int)
                &&& items[at as int].elem == Some(ElemView::Start { seq: seq@ })
                &&& self.crc@ == data_of(items.skip(at + 1))
            },
            None => open_start(items) is None,
        }
    }

    /// Begin a scan that adds to what is known.
    pub fn new(seq_state: &SeqState<KEPT_RECORDS>) -> (r: Self)
        requires
            seq_state.wf(),
        ensures
            r.wf(),
            r.begun() == seq_state@,
            r.items() == Seq::<ItemView>::empty(),
    {
        Scan {
            seq_state: seq_state.copy(),
            current: None,
            crc: Crc32::new(),
            top: 0,
            seen: 0,
            bytes_read: 0,
            ghost_state: Ghost((seq_state@, Seq::empty())),
        }
    }

    /// Take the next item: the element it decodes to, if any, and its length.
    pub fn step(&mut self, data: Option<Elem<'_>>, len: usize)
        requires
            old(self).wf(),
            old(self).items().len() < usize::MAX,
        ensures
            final(self).wf(),
            final(self).begun() == old(self).begun(),
            final(self).items() == old(self).items().push(
                (ItemView { elem: read_elem(data), len: len as nat }),
            ),
    {
        let ghost before = self.items();
        let ghost item = ItemView { elem: read_elem(data), len: len as nat };
        let ghost items = before.push(item);
        let idx: usize = self.seen;
        proof {
            assert(items.drop_last() =~= before);
            assert(items.last() == item);
            lemma_open_start(before);
            self.ghost_state@ = (self.begun(), items);
        }
        self.seen = idx + 1;
        self.bytes_read = count(self.bytes_read, len);
        match data {
            None => {
                // badly decoded data - if we're in the middle of a maybe-good
                // record, invalidate it.
                self.current = None;
            },
            Some(Elem::Start { seq_no }) => {
                // A start node: discard any current state, and start reading this
                // new node. If we had some other partial data, it is lost.
                self.current = Some((seq_no, idx));
                if seq_no.get() > self.top {
                    self.top = seq_no.get();
                }
                self.crc = Crc32::new();
                assert(items.skip(idx + 1) =~= Seq::<ItemView>::empty());
            },
            Some(Elem::Data { data }) => {
                // A data element: If we've seen a start, then CRC the data. Otherwise,
                // just ignore it and keep going until we see a start.
                if let Some((seq, at)) = self.current {
                    self.crc.update(data.key_val());
                    assert(items.skip(at + 1).drop_last() =~= before.skip(at + 1));
                    assert(items.skip(at + 1).last() == item);
                }
            },
            Some(Elem::End { seq_no, calc_crc }) => {
                // An end element: If we've seen a start, then finish the CRC calcs so
                // far, and see if it matches what we expect. If it all checks out,
                // record it as a good item. The records may be visited in any order,
                // the newest are remembered.
                if let Some((seq, start_idx)) = self.current {
                    self.current = None;
                    let mut crc = Crc32::new();
                    core::mem::swap(&mut crc, &mut self.crc);
                    let check_crc: u32 = crc.finalize();
                    let same: bool = seq.get() == seq_no.get();
                    let ghost r = RecordView {
                        seq: seq_no@,
                        start: start_idx as int,
                        end: idx as int,
                    };
                    proof {
                        assert(items.subrange(start_idx + 1, idx as int) =~= before.skip(
                            start_idx + 1,
                        ));
                        assert forall|k: int| start_idx < k < idx implies is_data(
                            #[trigger] items[k],
                        ) by {
                            assert(is_data(before[k]));
                        }
                        assert(is_good_record(items, r) <==> seq@ == seq_no@ && start_idx + 1
                            < idx && calc_crc == check_crc);
                    }
                    // a record has at least one data element
                    if same && start_idx + 1 < idx && calc_crc == check_crc {
                        self.seq_state.insert_good(
                            GoodWriteRecord {
                                seq: seq_no,
                                range: ItemRange { start: start_idx, end: idx },
                            },
                        );
                        assert(record_closed_by_last(items) == Some(r));
                        assert(good_records(items).drop_last() =~= good_records(before));
                    }
                }
            },
        }
    }

    /// The bytes that the seen items take in storage.
    pub fn bytes_read(&self) -> (n: usize)
        requires
            self.wf(),
        ensures
            n == counted(total_len(self.items())),
    {
        self.bytes_read
    }

    /// Finish the scan at the end of the storage.
    pub fn finish(self) -> (r: SeqState<KEPT_RECORDS>)
        requires
            self.wf(),
        ensures
            r.wf(),
            r@ == self.begun().scanned(good_records(self.items()), highest_start(self.items())),
    {
        let mut seq_state = self.seq_state;
        seq_state.number_above(self.top);
        seq_state
    }
}

} // verus!
