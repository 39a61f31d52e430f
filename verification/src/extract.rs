//! The extraction of a write record into the nodes, item by item.
//!
//! [`Extract::step`] takes what the storage has yielded and decides; it does no I/O itself.
use crate::elem::{Elem, ElemView, SerData};
use crate::record::{is_data, RecordView};
use crate::scan::read_elem;
use crate::seq_state::GoodWriteRecord;
use crate::storage::{count, counted, total_len, ItemView};
use crate::storage_node::{
    all_hydrated, body_in, distinct_keys, find_node, first_body, nodes_view, Node, State, VTable,
};
use crate::verify_record::{lemma_data_end, lemma_data_end_bounds};
use vstd::prelude::*;

verus! {

/// The index of the first item from `from` on that is no data element, or the end.
pub open spec fn data_end(items: Seq<ItemView>, from: int) -> int
    decreases items.len() - from,
{
    if from >= items.len() {
        items.len() as int
    } else if is_data(items[from]) {
        data_end(items, from + 1)
    } else {
        from
    }
}

/// Whether the Start element of the record is where the record says.
pub open spec fn starts(items: Seq<ItemView>, r: RecordView) -> bool {
    0 <= r.start < items.len() && items[r.start].elem == Some(ElemView::Start { seq: r.seq })
}

/// Whether the record is where it says: a Start element, data elements, and an End element,
/// with its number.
pub open spec fn extractable(items: Seq<ItemView>, r: RecordView) -> bool {
    let end = data_end(items, r.start + 1);
    &&& starts(items, r)
    &&& end < items.len()
    &&& items[end].elem matches Some(ElemView::End { seq, .. }) && seq == r.seq
}

/// The data elements that an extraction of the record reads.
pub open spec fn extracted(items: Seq<ItemView>, r: RecordView) -> Seq<ItemView> {
    if starts(items, r) {
        items.subrange(r.start + 1, data_end(items, r.start + 1))
    } else {
        Seq::empty()
    }
}

/// What the storage has answered to a request for the next item
pub enum Read<'a> {
    /// There is an item: the element it decodes to, if any, and its length
    Item(Option<Elem<'a>>, usize),
    /// There are no more items
    End,
    /// Reading has failed
    Failed,
}

/// What to do after a step of an extraction
#[derive(Clone, Copy, Debug, PartialEq, Eq, Structural)]
pub enum ExtractStep {
    /// Read the next item
    Continue,
    /// The record has been extracted
    Done,
    /// The storage does not hold the record where it should be
    Inconsistent,
    /// Reading has failed
    ReadFailed,
}

/// An extraction in progress
pub struct Extract {
    latest: GoodWriteRecord,
    seen: usize,
    total_bytes_read: usize,
    current_bytes_read: usize,
    ghost_items: Ghost<Seq<ItemView>>,
}

impl Extract {
    /// The record to extract.
    pub closed spec fn record(&self) -> RecordView {
        self.latest@
    }

    /// The items that have been seen.
    pub closed spec fn items(&self) -> Seq<ItemView> {
        self.ghost_items@
    }

    /// The data elements of the record that have been seen.
    pub open spec fn data(&self) -> Seq<ItemView> {
        if self.items().len() > self.record().start {
            self.items().skip(self.record().start + 1)
        } else {
            Seq::empty()
        }
    }

    /// Nothing but the items before the record, its Start element and its data elements
    /// have been seen, and they have been counted.
    pub closed spec fn wf(&self) -> bool {
        let items = self.items();
        &&& self.record().start >= 0
        &&& self.seen == items.len()
        &&& self.total_bytes_read == counted(total_len(items))
        &&& self.current_bytes_read == counted(total_len(self.data()))
        &&& items.len() > self.record().start ==> starts(items, self.record())
        &&& forall|k: int|
            self.record().start < k < items.len() ==> is_data(#[trigger] items[k])
    }

    /// What [`Self::wf`] says of the items.
    pub proof fn lemma_wf(&self)
        requires
            self.wf(),
        ensures
            self.record().start >= 0,
            self.items().len() > self.record().start ==> starts(self.items(), self.record()),
            forall|k: int|
                self.record().start < k < self.items().len() ==> is_data(
                    #[trigger] self.items()[k],
                ),
    {
    }

    /// Begin to extract a record.
    pub fn new(latest: GoodWriteRecord) -> (r: Self)
        ensures
            r.wf(),
            r.record() == latest@,
            r.items() == Seq::<ItemView>::empty(),
    {
        Extract {
            latest,
            seen: 0,
            total_bytes_read: 0,
            current_bytes_read: 0,
            ghost_items: Ghost(Seq::empty()),
        }
    }

    /// What the next answer of the storage means.
    pub open spec fn answered(&self, read: Read<'_>) -> ExtractStep {
        let start = self.record().start;
        let n = self.items().len();
        match read {
            Read::Item(data, _) => if n < start {
                ExtractStep::Continue
            } else if n == start {
                if read_elem(data) == Some(ElemView::Start { seq: self.record().seq }) {
                    ExtractStep::Continue
                } else {
                    ExtractStep::Inconsistent
                }
            } else {
                match read_elem(data) {
                    Some(ElemView::Data { .. }) => ExtractStep::Continue,
                    Some(ElemView::End { seq, .. }) => if seq == self.record().seq {
                        ExtractStep::Done
                    } else {
                        ExtractStep::Inconsistent
                    },
                    _ => ExtractStep::Inconsistent,
                }
            },
            Read::End => ExtractStep::Inconsistent,
            Read::Failed => ExtractStep::ReadFailed,
        }
    }

    /// Take the storage's answer to a request for the next item.
    ///
    /// A data element of the record hydrates the node with its key, if that waits for data.
    pub fn step<T, V: VTable<T>>(&mut self, nodes: &mut Vec<Node<T, V>>, read: Read<'_>) -> (r:
        ExtractStep)
        requires
            old(self).wf(),
            read is Item ==> old(self).items().len() < usize::MAX,
            distinct_keys(nodes_view(old(nodes)@)),
        ensures
            r == old(self).answered(read),
            final(self).record() == old(self).record(),
            match r {
                ExtractStep::Continue => {
                    let item = ItemView { elem: read_elem(read->Item_0), len: read->Item_1 as nat };
                    &&& read is Item
                    &&& final(self).wf()
                    &&& final(self).items() == old(self).items().push(item)
                    &&& nodes_view(final(nodes)@) == (if old(self).items().len() > old(
                        self,
                    ).record().start {
                        all_hydrated(nodes_view(old(nodes)@), seq![item])
                    } else {
                        nodes_view(old(nodes)@)
                    })
                },
                ExtractStep::Done => {
                    &&& read is Item
                    &&& nodes_view(final(nodes)@) == nodes_view(old(nodes)@)
                    &&& final(self).total_count() == counted(
                        total_len(old(self).items()) + read->Item_1 as nat,
                    )
                    &&& final(self).current_count() == counted(total_len(old(self).data()))
                },
                _ => nodes_view(final(nodes)@) == nodes_view(old(nodes)@),
            },
    {
        let start: usize = self.latest.range.start;
        let seq: u32 = self.latest.seq.get();
        match read {
            Read::Failed => ExtractStep::ReadFailed,
            Read::End => ExtractStep::Inconsistent,
            Read::Item(data, len) => {
                let ghost items = self.items();
                let ghost item = ItemView { elem: read_elem(data), len: len as nat };
                let ghost after = items.push(item);
                assert(after.drop_last() =~= items);
                self.total_bytes_read = count(self.total_bytes_read, len);
                if self.seen < start {
                    self.seen = self.seen + 1;
                    proof {
                        self.ghost_items@ = after;
                        assert(self.data() =~= Seq::<ItemView>::empty());
                    }
                    ExtractStep::Continue
                } else if self.seen == start {
                    match data {
                        Some(Elem::Start { seq_no }) => {
                            if seq_no.get() == seq {
                                self.seen = self.seen + 1;
                                proof {
                                    self.ghost_items@ = after;
                                    assert(self.data() =~= Seq::<ItemView>::empty());
                                }
                                ExtractStep::Continue
                            } else {
                                ExtractStep::Inconsistent
                            }
                        },
                        _ => ExtractStep::Inconsistent,
                    }
                } else {
                    match data {
                        Some(Elem::Data { data }) => {
                            self.current_bytes_read = count(self.current_bytes_read, len);
                            self.seen = self.seen + 1;
                            proof {
                                assert(after.skip(start + 1).drop_last() =~= items.skip(start + 1));
                                assert(after.skip(start + 1).last() == item);
                                self.ghost_items@ = after;
                                assert forall|k: int| start < k < after.len() implies is_data(
                                    #[trigger] after[k],
                                ) by {
                                    if k < items.len() {
                                        assert(is_data(items[k]));
                                    }
                                }
                            }
                            hydrate(nodes, &data, Ghost(len as nat));
                            ExtractStep::Continue
                        },
                        Some(Elem::End { seq_no, .. }) => {
                            if seq_no.get() == seq {
                                ExtractStep::Done
                            } else {
                                ExtractStep::Inconsistent
                            }
                        },
                        _ => ExtractStep::Inconsistent,
                    }
                }
            },
        }
    }

    /// The bytes that the seen items take, with the one that ended the extraction.
    pub closed spec fn total_count(&self) -> usize {
        self.total_bytes_read
    }

    /// The bytes that the seen data elements of the record take.
    pub closed spec fn current_count(&self) -> usize {
        self.current_bytes_read
    }

    /// The bytes that the seen items take, with the one that ended the extraction.
    pub fn total_bytes_read(&self) -> (n: usize)
        ensures
            n == self.total_count(),
    {
        self.total_bytes_read
    }

    /// The bytes that the seen data elements of the record take.
    pub fn current_bytes_read(&self) -> (n: usize)
        ensures
            n == self.current_count(),
    {
        self.current_bytes_read
    }
}

/// Offer a data element to the nodes.
fn hydrate<T, V: VTable<T>>(nodes: &mut Vec<Node<T, V>>, data: &SerData<'_>, Ghost(len): Ghost<nat>)
    requires
        distinct_keys(nodes_view(old(nodes)@)),
    ensures
        nodes_view(final(nodes)@) == all_hydrated(
            nodes_view(old(nodes)@),
            seq![(ItemView { elem: Some(ElemView::Data { bytes: data@ }), len })],
        ),
{
    let ghost before = nodes_view(nodes@);
    let ghost elem = Some(ElemView::Data { bytes: data@ });
    let ghost items = seq![(ItemView { elem, len })];
    proof {
        assert forall|key: Seq<char>| #[trigger] first_body(items, key) == body_in(elem, key) by {
            assert(items.drop_last() =~= Seq::<ItemView>::empty());
            assert(first_body(items.drop_last(), key) is None);
        }
    }
    match data.kv_pair() {
        Err(_) => {
            assert(nodes_view(nodes@) =~= all_hydrated(before, items));
        },
        Ok(kv) => match find_node(nodes, kv.key) {
            None => {
                assert forall|k: int| 0 <= k < before.len() implies #[trigger] before[k]
                    == all_hydrated(before, items)[k] by {
                    assert(nodes@[k].key@ != kv.key@);
                }
                assert(nodes_view(nodes@) =~= all_hydrated(before, items));
            },
            Some(i) => {
                assert(before[i as int] == nodes@[i as int]@);
                assert forall|k: int| 0 <= k < before.len() && k != i implies #[trigger] before[k]
                    == all_hydrated(before, items)[k] by {
                    if k < i {
                        assert(before[k].key != before[i as int].key);
                    } else {
                        assert(before[i as int].key != before[k].key);
                    }
                }
                if let State::Initial = nodes[i].state {
                    match nodes[i].vtable.deserialize(kv.body) {
                        Ok(t) => {
                            // If it went okay, let the node know that it has been hydrated with data
                            nodes[i].t = Some(t);
                            nodes[i].state = State::ValidNoWriteNeeded;
                        },
                        Err(_) => {
                            // If there WAS a key, but the deser failed, this means that either the data
                            // was corrupted, or there was a breaking schema change. Either way, we can't
                            // particularly recover from this.
                            nodes[i].state = State::NonResident;
                        },
                    }
                }
                assert forall|k: int| 0 <= k < before.len() implies #[trigger] nodes_view(nodes@)[k]
                    == all_hydrated(before, items)[k] by {
                    if k != i {
                        assert(before[k] == all_hydrated(before, items)[k]);
                    }
                }
                assert(nodes_view(nodes@) =~= all_hydrated(before, items));
            },
        },
    }
}

/// Where the items before `at` are those before a record, its Start element and data
/// elements, the data seen is the first of what an extraction of the record reads; and the
/// item at `at` decides whether the record can be extracted, unless it belongs to it.
pub proof fn lemma_extracting(items: Seq<ItemView>, r: RecordView, at: int)
    requires
        0 <= at <= items.len(),
        r.start >= 0,
        at > r.start ==> starts(items.take(at), r),
        forall|k: int| r.start < k < at ==> is_data(#[trigger] items.take(at)[k]),
    ensures
        ({
            let data = extracted(items, r);
            let seen = if at > r.start {
                items.take(at).skip(r.start + 1)
            } else {
                Seq::empty()
            };
            let next = items[at].elem;
            &&& 0 <= seen.len() <= data.len()
            &&& data.take(seen.len() as int) == seen
            &&& at > r.start && at < items.len() && !is_data(items[at]) ==> data == seen
                && data_end(items, r.start + 1) == at
            &&& at == items.len() ==> data == seen && !extractable(items, r)
            &&& at == r.start && at < items.len() && next != Some(
                ElemView::Start { seq: r.seq },
            ) ==> data == seen && !extractable(items, r)
        }),
{
    let seen = if at > r.start {
        items.take(at).skip(r.start + 1)
    } else {
        Seq::empty()
    };
    let data = extracted(items, r);
    if at > r.start {
        assert(items.take(at)[r.start] == items[r.start]);
        lemma_data_end_bounds(items, r.start + 1);
        let end = data_end(items, r.start + 1);
        assert(end >= at) by {
            if end < at {
                assert(is_data(items.take(at)[end]));
            }
        }
        assert(data.take(seen.len() as int) =~= seen);
        if at == items.len() || !is_data(items[at]) {
            assert forall|k: int| r.start + 1 <= k < at implies is_data(#[trigger] items[k]) by {
                assert(is_data(items.take(at)[k]));
            }
            lemma_data_end(items, r.start + 1, at);
            assert(data =~= seen);
        }
    } else {
        assert(data.take(0) =~= seen);
        if !starts(items, r) {
            assert(data =~= seen);
        }
    }
}

/// What the next item of a storage means to an extraction: before the record nothing, then it
/// has to be the Start element, then data elements, and then the End element of the record.
pub proof fn law_what_an_extraction_expects(
    extract: &Extract,
    data: Option<Elem<'_>>,
    len: usize,
)
    ensures
        ({
            let n = extract.items().len();
            let r = extract.record();
            let step = extract.answered(Read::Item(data, len));
            &&& n < r.start ==> step == ExtractStep::Continue
            &&& n == r.start ==> step == (if data matches Some(Elem::Start { seq_no }) && seq_no@
                == r.seq {
                ExtractStep::Continue
            } else {
                ExtractStep::Inconsistent
            })
            &&& n > r.start ==> step == (match data {
                Some(Elem::Data { .. }) => ExtractStep::Continue,
                Some(Elem::End { seq_no, .. }) => if seq_no@ == r.seq {
                    ExtractStep::Done
                } else {
                    ExtractStep::Inconsistent
                },
                _ => ExtractStep::Inconsistent,
            })
            &&& extract.answered(Read::End) == ExtractStep::Inconsistent
            &&& extract.answered(Read::Failed) == ExtractStep::ReadFailed
        }),
{
}

/// An extraction gets through exactly if the Start element is where it should be, and the first
/// item behind it that is no data element is the End element of the record. It yields what
/// stands between them.
pub proof fn law_when_a_record_is_extracted(items: Seq<ItemView>, r: RecordView, end: int)
    requires
        0 <= r.start < end <= items.len(),
        forall|k: int| r.start < k < end ==> ((#[trigger] items[k]).elem matches Some(e) && e is Data),
        end < items.len() ==> !(items[end].elem matches Some(e) && e is Data),
    ensures
        extractable(items, r) <==> items[r.start].elem == Some(ElemView::Start { seq: r.seq }) && end
            < items.len() && (items[end].elem matches Some(ElemView::End { seq, .. }) && seq
            == r.seq),
        items[r.start].elem == Some(ElemView::Start { seq: r.seq }) ==> extracted(items, r)
            == items.subrange(r.start + 1, end),
        data_end(items, r.start + 1) == end,
{
    assert forall|k: int| r.start + 1 <= k < end implies is_data(#[trigger] items[k]) by {}
    lemma_data_end(items, r.start + 1, end);
}

} // verus!
