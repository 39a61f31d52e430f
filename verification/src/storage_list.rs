//! The list of nodes, and the three operations between it and a storage.
//!
//! The operations come in two forms. [`StorageList::process_reads`],
//! [`StorageList::process_writes`] and [`StorageList::process_garbage`] run a storage whose
//! calls return at once. For a storage whose calls have to be awaited, the caller makes the
//! calls and hands the answers to the steps from which the three are built.
use crate::cbor;
use crate::crc32::crc32_of;
use crate::elem::{Elem, ElemView, SeqNo};
use crate::error::{Error, LoadStoreError};
use crate::extract::{
    data_end, extractable, extracted, lemma_extracting, Extract, ExtractStep, Read,
};
use crate::laws_counting::law_a_collection_parts_the_items;
use crate::laws_record::law_complete_write_is_read_back;
use crate::model::{
    appended, appended_in_part, collected_in_part, hydrated_in_part, is_inconsistent,
    is_unserializable, kept, lemma_appended_in_part, lemma_appended_push, lemma_unwritten_has_data,
    popped, ListView,
};
use crate::record::{good_records, highest_start, RecordView};
use crate::scan::{read_elem, Scan};
use crate::seq_state::{later, slot_view, GoodWriteRecord, ItemRange, SeqState, SeqStateView};
use crate::storage::{
    at_most_one_more, count, counted, lemma_counted_sum, lemma_total_len_push, total_len, ItemView,
    NdlDataStorage, NdlElemIterNode,
};
use crate::storage_node::{
    all_flushed, all_hydrated, all_settled, find_node, has_key, index_of, lemma_flushed_wf,
    lemma_hydrated_empty, lemma_hydrated_push, lemma_hydrated_wf, lemma_index_of,
    lemma_settled_wf, nodes_view, Node, NodeView, State, VTable,
};
use crate::verify_record::{
    first_start, lemma_first_start, lemma_verifying, verified, Verify, VerifyStep,
};
use crate::write_record::{
    all_fit, all_key_vals, data_elems, lemma_data_elems_prefix, record_elems, WriteReport, Writing,
};
use vstd::prelude::*;

verus! {

/// "Global anchor" of all storage items.
///
/// It serves as the meeting point between two conceptual pieces:
///
/// 1. The nodes, which each store one configuration item
/// 2. The worker that owns the external flash, and serves the
///    role of loading data FROM flash (and putting it in the nodes),
///    as well as the role of deciding when to write data TO flash
///    (retrieving it from each node).
pub struct StorageList<T, V, const KEPT_RECORDS: usize> {
    id: usize,
    nodes: Vec<Node<T, V>>,
    seq_state: SeqState<KEPT_RECORDS>,
    needs_read: bool,
    needs_write: bool,
}

/// Counter values from a [`StorageList::process_reads()`] operation
#[derive(Clone, Copy, Debug, PartialEq, Eq, Structural)]
pub struct ProcessReadCounters {
    /// Total bytes read from storage, including any re-reads if necessary
    pub total_bytes_read: usize,
    /// Total data bytes used by data of the current valid write record,
    /// used to populate the list.
    pub current_bytes_read: usize,
}

/// Counter values from a [`StorageList::process_writes()`] operation
#[derive(Clone, Copy, Debug, PartialEq, Eq, Structural)]
pub struct ProcessWriteCounters {
    /// Total bytes read from storage, including any re-reads if necessary
    pub total_bytes_read: usize,
    /// Total data bytes written as part of this operation
    pub current_bytes_written: usize,
}

/// Counter values from a [`StorageList::process_garbage()`] operation
#[derive(Clone, Copy, Debug, PartialEq, Eq, Structural)]
pub struct ProcessGarbageCounters {
    /// Total bytes read from storage, including any re-reads if necessary
    pub total_bytes_read: usize,
    /// Bytes read AFTER collection occurred. May be zero if no collection
    /// was necessary.
    pub post_collection_bytes_read: usize,
    /// Total data bytes popped as part of this operation
    pub total_bytes_popped: usize,
}

impl<T, V: VTable<T>, const KEPT_RECORDS: usize> StorageList<T, V, KEPT_RECORDS> {
    /// What the list holds.
    pub closed spec fn view(&self) -> ListView<T, V> {
        ListView {
            id: self.id,
            nodes: nodes_view(self.nodes@),
            seq: self.seq_state@,
            needs_read: self.needs_read,
            needs_write: self.needs_write,
        }
    }

    /// The list is in order.
    pub closed spec fn wf(&self) -> bool {
        &&& self.seq_state.wf()
        &&& self@.wf()
    }

    /// What a list holds is in order where the list is, with as many slots as records are
    /// kept.
    pub proof fn lemma_wf(&self)
        requires
            self.wf(),
        ensures
            self@.wf(),
            self@.seq.records.len() == KEPT_RECORDS,
    {
    }

    /// Make a new empty list.
    ///
    /// The `id` tells the list from other lists: a node is attached to at most one of them.
    ///
    /// `KEPT_RECORDS` must not be 0.
    pub fn new(id: usize) -> (r: Self)
        requires
            KEPT_RECORDS > 0,
        ensures
            r.wf(),
            r@ == ListView::<T, V>::empty(id, KEPT_RECORDS as nat),
    {
        let r = StorageList {
            id,
            nodes: Vec::new(),
            seq_state: SeqState::new(),
            needs_read: false,
            needs_write: false,
        };
        assert(r@.nodes =~= Seq::<NodeView<T, V>>::empty());
        r
    }

    /// Make a new empty list.
    ///
    /// Will return `None` if `KEPT_RECORDS` is 0.
    pub fn try_new(id: usize) -> (r: Option<Self>)
        ensures
            r is Some <==> KEPT_RECORDS > 0,
            r matches Some(list) ==> list.wf() && list@ == ListView::<T, V>::empty(
                id,
                KEPT_RECORDS as nat,
            ),
    {
        if KEPT_RECORDS == 0 {
            None
        } else {
            Some(StorageList::new(id))
        }
    }

    /// Whether a read has been asked for since the last call.
    ///
    /// It is asked for when a node is attached, which may require data to be loaded.
    pub fn needs_read(&mut self) -> (r: bool)
        ensures
            r == old(self)@.needs_read,
            final(self)@ == (ListView { needs_read: false, ..old(self)@ }),
            old(self)@.nodes_lead_to(final(self)@),
            old(self).wf() ==> final(self).wf(),
    {
        let r: bool = self.needs_read;
        self.needs_read = false;
        r
    }

    /// Whether a write has been asked for since the last call.
    ///
    /// It is asked for when a value is modified and needs to be persisted.
    pub fn needs_write(&mut self) -> (r: bool)
        ensures
            r == old(self)@.needs_write,
            final(self)@ == (ListView { needs_write: false, ..old(self)@ }),
            old(self)@.nodes_lead_to(final(self)@),
            old(self).wf() ==> final(self).wf(),
    {
        let r: bool = self.needs_write;
        self.needs_write = false;
        r
    }

    /// Manually reset the cache of what is known of the storage
    ///
    /// This should not normally be necessary, and has some important caveats:
    ///
    /// 1. The next `process_reads` has to scan the storage, and it MUST be completed before
    ///    the next `process_writes`, as after a clean startup.
    /// 2. The nodes are not reset. If they have previously loaded some value, they will
    ///    retain that value moving forward.
    ///
    /// It is meant for the case where the storage had to be wiped while the list is in use.
    /// This method does not perform any I/O.
    pub fn reset_cache(&mut self)
        requires
            old(self).wf(),
        ensures
            final(self).wf(),
            final(self)@ == old(self)@.forgotten(),
    {
        self.seq_state = SeqState::new();
    }

    /// What tells the list from others.
    pub fn id(&self) -> (id: usize)
        ensures
            id == self@.id,
    {
        self.id
    }

    /// Whether a node with the given key is linked to the list.
    pub fn contains_key(&self, key: &str) -> (r: bool)
        ensures
            r == has_key(self@.nodes, key@),
    {
        let r = find_node(&self.nodes, key);
        proof {
            let nodes = self@.nodes;
            match r {
                Some(i) => {
                    assert(nodes[i as int].key == key@);
                },
                None => {
                    assert forall|k: int| 0 <= k < nodes.len() implies (#[trigger] nodes[k]).key
                        != key@ by {
                        assert(nodes[k] == self.nodes@[k]@);
                    }
                },
            }
        }
        r.is_some()
    }

    /// The index of the node with the given key.
    fn find(&self, key: &str) -> (i: usize)
        requires
            self.wf(),
            has_key(self@.nodes, key@),
        ensures
            i < self.nodes@.len(),
            i == index_of(self@.nodes, key@),
            self.nodes@[i as int]@ == self@.nodes[i as int],
            self@.nodes[i as int].key == key@,
            self@.nodes[i as int].wf(),
    {
        let nodes = Ghost(self@.nodes);
        match find_node(&self.nodes, key) {
            Some(i) => {
                proof {
                    assert(nodes@[i as int] == self.nodes@[i as int]@);
                    lemma_index_of(nodes@, key@, i as int);
                    assert(nodes@[i as int].wf());
                }
                i
            },
            None => {
                proof {
                    let k = index_of(nodes@, key@);
                    assert(nodes@[k] == self.nodes@[k]@);
                }
                0
            },
        }
    }

    /// Link a new node to the front of the list, and ask for a read.
    pub(crate) fn link(&mut self, key: &str, vtable: V)
        requires
            old(self).wf(),
            !has_key(old(self)@.nodes, key@),
        ensures
            final(self).wf(),
            final(self)@ == (ListView {
                nodes: seq![NodeView::fresh(key@, vtable)] + old(self)@.nodes,
                needs_read: true,
                ..old(self)@
            }),
    {
        let ghost nodes = self@.nodes;
        let node = Node { key: key.to_owned(), state: State::Initial, vtable, t: None };
        let ghost fresh = NodeView::<T, V>::fresh(key@, vtable);
        self.nodes.insert(0, node);
        self.needs_read = true;
        proof {
            let after = seq![fresh] + nodes;
            assert(self@.nodes =~= after);
            assert forall|i: int, j: int| 0 <= i < j < after.len() implies (
            #[trigger] after[i]).key != (#[trigger] after[j]).key by {
                assert(after[j] == nodes[j - 1]);
                if i > 0 {
                    assert(after[i] == nodes[i - 1]);
                }
            }
            assert forall|i: int| 0 <= i < after.len() implies (#[trigger] after[i]).wf() by {
                if i > 0 {
                    assert(after[i] == nodes[i - 1]);
                }
            }
        }
    }

    /// Unlink the node with the given key, and drop its value.
    pub(crate) fn unlink(&mut self, key: &str)
        requires
            old(self).wf(),
            has_key(old(self)@.nodes, key@),
        ensures
            final(self).wf(),
            final(self)@ == (ListView {
                nodes: old(self)@.nodes.remove(index_of(old(self)@.nodes, key@)),
                ..old(self)@
            }),
    {
        let ghost nodes = self@.nodes;
        let i: usize = self.find(key);
        self.nodes.remove(i);
        proof {
            let after = nodes.remove(i as int);
            assert(self@.nodes =~= after);
            assert forall|a: int, b: int| 0 <= a < b < after.len() implies (
            #[trigger] after[a]).key != (#[trigger] after[b]).key by {
                let x = if a < i {
                    a
                } else {
                    a + 1
                };
                let y = if b < i {
                    b
                } else {
                    b + 1
                };
                assert(nodes[x].key != nodes[y].key);
            }
            assert forall|a: int| 0 <= a < after.len() implies (#[trigger] after[a]).wf() by {
                let x = if a < i {
                    a
                } else {
                    a + 1
                };
                assert(nodes[x].wf());
            }
        }
    }

    /// Ask for a read.
    pub(crate) fn ask_read(&mut self)
        ensures
            old(self).wf() ==> final(self).wf(),
            final(self)@ == (ListView { needs_read: true, ..old(self)@ }),
    {
        self.needs_read = true;
    }

    /// Ask for a write.
    pub(crate) fn ask_write(&mut self)
        ensures
            old(self).wf() ==> final(self).wf(),
            final(self)@ == (ListView { needs_write: true, ..old(self)@ }),
    {
        self.needs_write = true;
    }

    /// The state of the node with the given key.
    pub(crate) fn state_of(&self, key: &str) -> (state: State)
        requires
            self.wf(),
            has_key(self@.nodes, key@),
        ensures
            state == self@.nodes[index_of(self@.nodes, key@)].state,
    {
        self.nodes[self.find(key)].state
    }

    /// The value of the node with the given key.
    pub(crate) fn value_of(&self, key: &str) -> (t: &T)
        requires
            self.wf(),
            has_key(self@.nodes, key@),
            self@.nodes[index_of(self@.nodes, key@)].state.has_value(),
        ensures
            self@.nodes[index_of(self@.nodes, key@)].value == Some(*t),
    {
        self.nodes[self.find(key)].t.as_ref().unwrap()
    }

    /// Replace the value of the node with the given key. It then needs to be written.
    pub(crate) fn replace(&mut self, key: &str, t: T)
        requires
            old(self).wf(),
            has_key(old(self)@.nodes, key@),
        ensures
            final(self).wf(),
            final(self)@ == old(self)@.replaced(key@, t),
    {
        let ghost nodes = self@.nodes;
        let i: usize = self.find(key);
        self.nodes[i].t = Some(t);
        self.nodes[i].state = State::NeedsWrite;
        proof {
            let node = NodeView { state: State::NeedsWrite, value: Some(t), ..nodes[i as int] };
            let after = nodes.update(i as int, node);
            assert(self@.nodes =~= after);
            assert forall|a: int, b: int| 0 <= a < b < after.len() implies (
            #[trigger] after[a]).key != (#[trigger] after[b]).key by {
                assert(nodes[a].key != nodes[b].key);
            }
            assert forall|a: int| 0 <= a < after.len() implies (#[trigger] after[a]).wf() by {
                assert(nodes[a].wf());
            }
        }
    }

    /// Begin a scan of the storage, unless it has been scanned before.
    pub fn begin_scan(&self) -> (r: Option<Scan<KEPT_RECORDS>>)
        requires
            self.wf(),
        ensures
            r is None <==> self@.seq.next_seq is Some,
            r matches Some(scan) ==> {
                &&& scan.wf()
                &&& scan.begun() == self@.seq
                &&& scan.items() == Seq::<ItemView>::empty()
            },
    {
        // If we've already scanned, we know the highest number (or that there is none)
        if self.seq_state.initial_scan_completed() {
            None
        } else {
            Some(Scan::new(&self.seq_state))
        }
    }

    /// Keep what a scan of the whole storage has found.
    pub fn finish_scan(&mut self, scan: Scan<KEPT_RECORDS>)
        requires
            old(self).wf(),
            scan.wf(),
            scan.begun() == old(self)@.seq,
        ensures
            final(self).wf(),
            final(self)@ == (ListView {
                seq: old(self)@.seq.scanned(
                    good_records(scan.items()),
                    highest_start(scan.items()),
                ),
                ..old(self)@
            }),
    {
        self.seq_state = scan.finish();
    }

    /// The newest known record.
    pub fn latest(&self) -> (r: Option<GoodWriteRecord>)
        requires
            self.wf(),
        ensures
            slot_view(r) == self@.seq.highest(),
    {
        self.seq_state.highest_seen()
    }

    /// Take the storage's answer in an extraction. See [`Extract::step`].
    pub fn extract_step(&mut self, extract: &mut Extract, read: Read<'_>) -> (r: ExtractStep)
        requires
            old(self).wf(),
            old(extract).wf(),
            read is Item ==> old(extract).items().len() < usize::MAX,
        ensures
            final(self).wf(),
            final(self)@ == (ListView { nodes: final(self)@.nodes, ..old(self)@ }),
            r == old(extract).answered(read),
            final(extract).record() == old(extract).record(),
            match r {
                ExtractStep::Continue => {
                    let item = ItemView {
                        elem: read_elem(read->Item_0),
                        len: read->Item_1 as nat,
                    };
                    &&& read is Item
                    &&& final(extract).wf()
                    &&& final(extract).items() == old(extract).items().push(item)
                    &&& final(self)@.nodes == (if old(extract).items().len() > old(
                        extract,
                    ).record().start {
                        all_hydrated(old(self)@.nodes, seq![item])
                    } else {
                        old(self)@.nodes
                    })
                },
                ExtractStep::Done => {
                    &&& read is Item
                    &&& final(self)@ == old(self)@
                    &&& final(extract).total_count() == counted(
                        total_len(old(extract).items()) + read->Item_1 as nat,
                    )
                    &&& final(extract).current_count() == counted(total_len(old(extract).data()))
                },
                _ => final(self)@ == old(self)@,
            },
    {
        let ghost nodes = self@.nodes;
        let r: ExtractStep = extract.step(&mut self.nodes, read);
        proof {
            if read is Item {
                lemma_hydrated_wf(
                    nodes,
                    seq![(ItemView { elem: read_elem(read->Item_0), len: read->Item_1 as nat })],
                );
            }
        }
        r
    }

    /// Whether the list can and has to be written, and the number of the record to write.
    pub fn begin_write(&self) -> (r: Result<Option<SeqNo>, Error>)
        requires
            self.wf(),
        ensures
            match r {
                Err(e) => self@.refused() == Some(e),
                Ok(None) => self@.refused() is None && !self@.unwritten(),
                Ok(Some(seq)) => self@.refused() is None && self@.unwritten() && Some(seq@)
                    == self@.seq.next_seq,
            },
    {
        let next_seq: SeqNo = match self.seq_state.next_seq {
            Some(next_seq) => next_seq,
            None => {
                return Err(Error::NeedsFirstRead);
            },
        };
        if self.seq_state.needs_gc {
            return Err(Error::NeedsGarbageCollect);
        }
        // If the list is unchanged, there is no need to write it to flash!
        match self.needs_writing() {
            Ok(true) => Ok(Some(next_seq)),
            Ok(false) => Ok(None),
            Err(e) => Err(e),
        }
    }

    /// How many nodes there are.
    pub fn node_count(&self) -> (n: usize)
        ensures
            n == self@.nodes.len(),
    {
        self.nodes.len()
    }

    /// Take the next node in the writing of a record. See [`Writing::data_elem`].
    pub fn write_step<'b>(&self, writing: &mut Writing<T, V>, i: usize, buf: &'b mut [u8]) -> (r:
        Result<Option<Elem<'b>>, Error>)
        requires
            self.wf(),
            i < self@.nodes.len(),
            old(writing).wf(),
            old(writing).nodes().len() < usize::MAX,
        ensures
            final(buf)@.len() == old(buf)@.len(),
            final(writing).number() == old(writing).number(),
            final(writing).written() == old(writing).written(),
            ({
                let node = self@.nodes[i as int];
                &&& match r {
                    Ok(Some(elem)) => node.state.has_value() && node.fits(old(buf)@.len())
                        && elem@ == node.data_elem(),
                    Ok(None) => !node.state.has_value(),
                    Err(e) => e is Serialization && node.state.has_value() && !node.fits(
                        old(buf)@.len(),
                    ),
                }
                &&& r is Ok ==> final(writing).wf() && final(writing).nodes() == old(
                    writing,
                ).nodes().push(node)
            }),
    {
        assert(self@.nodes[i as int] == self.nodes@[i as int]@);
        assert(self@.nodes[i as int].wf());
        writing.data_elem(&self.nodes[i], buf)
    }

    /// Keep that a record has been written and read back at the given range, and mark all
    /// nodes accordingly.
    pub fn finish_write(&mut self, seq: SeqNo, range: ItemRange)
        requires
            old(self).wf(),
        ensures
            final(self).wf(),
            final(self)@ == old(self)@.after_write(
                RecordView { seq: seq@, start: range.start as int, end: range.end as int },
            ),
    {
        self.seq_state.insert_good(GoodWriteRecord { seq, range });
        self.mark_flushed();
    }

    /// Keep that a record could not be written or read back: its number is not used again.
    pub fn abandon_write(&mut self)
        requires
            old(self).wf(),
        ensures
            final(self).wf(),
            final(self)@ == old(self)@.after_failed_write(),
    {
        self.seq_state.skip_seq();
    }

    /// Begin a collection, unless none is needed: forget what is known of the storage, and
    /// return it to decide what is kept.
    ///
    /// This inhibits any reads and writes until the collection has completed, and has the
    /// storage scanned again even where it does not complete.
    pub fn begin_garbage(&mut self) -> (r: Option<SeqState<KEPT_RECORDS>>)
        requires
            old(self).wf(),
        ensures
            final(self).wf(),
            match r {
                None => !old(self)@.seq.needs_gc && final(self)@ == old(self)@,
                Some(known) => old(self)@.seq.needs_gc && known@ == old(self)@.seq && final(self)@
                    == old(self)@.forgotten(),
            },
    {
        if !self.seq_state.needs_gc {
            return None;
        }
        let mut known: SeqState<KEPT_RECORDS> = SeqState::new();
        core::mem::swap(&mut known, &mut self.seq_state);
        Some(known)
    }

    /// Finish a collection: no other is needed for now. The next number is not below the one
    /// that was known before.
    pub fn finish_garbage(&mut self, known: &SeqState<KEPT_RECORDS>)
        requires
            old(self).wf(),
        ensures
            final(self).wf(),
            final(self)@ == (ListView {
                seq: SeqStateView {
                    next_seq: later(old(self)@.seq.next_seq, known@.next_seq),
                    needs_gc: false,
                    ..old(self)@.seq
                },
                ..old(self)@
            }),
    {
        self.seq_state.keep_later(known);
        self.seq_state.needs_gc = false;
    }

    /// Process any nodes that are requesting flash data
    ///
    /// This function will traverse the list in order to attempt to fill any nodes that
    /// are still in the [`State::Initial`] state, meaning they are waiting to see if the
    /// flash contains the data they are interested in or not.
    ///
    /// The need for this is signalled by [`Self::needs_read()`].
    ///
    /// Where reading fails before the storage has been scanned, the list stays as it was, so
    /// that a later call begins afresh.
    pub fn process_reads<S: NdlDataStorage>(&mut self, storage: &mut S) -> (r: Result<
        ProcessReadCounters,
        LoadStoreError<S::Error>,
    >)
        requires
            old(self).wf(),
        ensures
            final(self).wf(),
            final(storage).items() == old(storage).items(),
            final(storage).faults() == old(storage).faults(),
            ({
                let items = old(storage).items();
                let list = old(self)@.after_scan(items);
                let data = list.hydrating(items);
                match r {
                    Ok(counters) => {
                        &&& list.readable(items)
                        &&& final(self)@ == old(self)@.after_read(items)
                        &&& counters.total_bytes_read == counted(
                            total_len(old(self)@.scan_pass(items)) + total_len(
                                list.hydration_pass(items),
                            ),
                        )
                        &&& counters.current_bytes_read == counted(total_len(data))
                    },
                    Err(e) => {
                        &&& match e {
                            LoadStoreError::FlashRead(fault) => old(
                                storage,
                            ).faults().read.contains(fault),
                            _ => {
                                &&& is_inconsistent(e)
                                &&& !list.readable(items)
                                &&& final(self)@ == (ListView {
                                    nodes: all_hydrated(list.nodes, data),
                                    ..list
                                })
                            },
                        }
                        &&& final(self)@ == old(self)@ || (final(self)@ == (ListView {
                            nodes: final(self)@.nodes,
                            ..list
                        }) && hydrated_in_part(old(self)@.nodes, data, final(self)@.nodes))
                    },
                }
            }),
            old(self)@.read_leads_to(old(storage).items(), final(self)@),
            // only nodes that wait for data are touched, and none waits after a read that
            // has ended well
            final(self)@.nodes.len() == old(self)@.nodes.len(),
            forall|i: int|
                0 <= i < old(self)@.nodes.len() && !((#[trigger] old(self)@.nodes[i]).state
                    is Initial) ==> final(self)@.nodes[i] == old(self)@.nodes[i],
            r is Ok ==> forall|i: int|
                0 <= i < final(self)@.nodes.len() ==> !((#[trigger] final(self)@.nodes[i]).state
                    is Initial),
            old(storage).faults().never() ==> (r is Ok <==> old(self)@.after_scan(
                old(storage).items(),
            ).readable(old(storage).items())),
            old(self)@.seq.next_seq is None || old(self)@.seq.highest() is Some ==> (old(
                storage,
            ).faults().always matches Some(fault) ==> {
                &&& r matches Err(LoadStoreError::FlashRead(e)) && e == fault
                &&& final(self)@ == old(self)@
            }),
    {
        let ghost items = storage.items();
        // Have we already determined the latest valid write record?
        let (latest, scanned): (Option<GoodWriteRecord>, usize) = match self.get_or_populate_latest(
            storage,
        ) {
            Ok(found) => found,
            Err(e) => {
                return Err(e);
            },
        };
        let ghost list = self@;
        let mut total_bytes_read: usize = scanned;
        let mut current_bytes_read: usize = 0;
        // If we have something: populate all present items
        match latest {
            Some(latest) => {
                match self.extract_all(latest, storage) {
                    Ok((total, current)) => {
                        proof {
                            lemma_counted_sum(
                                total_len(old(self)@.scan_pass(items)),
                                total_len(list.hydration_pass(items)),
                            );
                        }
                        total_bytes_read = count(total_bytes_read, total);
                        current_bytes_read = current;
                    },
                    Err(e) => {
                        return Err(e);
                    },
                }
            },
            None => {
                proof {
                    lemma_hydrated_empty(list.nodes);
                }
            },
        }
        // Now, we either have NOTHING, or we have populated all items that DO exist.
        // Mark any nodes that are STILL in the INITIAL state as nonresident.
        self.mark_initial_nonresident();
        Ok(ProcessReadCounters { total_bytes_read, current_bytes_read })
    }

    /// Process writes to flash.
    ///
    /// If any of the nodes attached to the list has pending writes, this function writes the
    /// ENTIRE list to flash. This method:
    ///
    /// 1. Iterates through each node currently linked in the list
    /// 2. Serializes each node and writes it to flash
    /// 3. Verifies the written data matches what was intended to be written
    /// 4. On success, marks all nodes as no longer having pending changes
    ///
    /// The need for this call is signalled by [`Self::needs_write()`]. Data is not "synced"
    /// to disk until a call to `process_writes` completes successfully.
    ///
    /// This method WILL NOT succeed until after the first call to `process_reads`.
    ///
    /// A record that could not be written, or not be read back, is left behind, and the next
    /// attempt is made under a new sequence number. Where not even the Start element could be
    /// written, the number stays.
    ///
    /// `buf` is a scratch buffer in which each data element is built.
    pub fn process_writes<S: NdlDataStorage>(&mut self, storage: &mut S, buf: &mut [u8]) -> (r:
        Result<ProcessWriteCounters, LoadStoreError<S::Error>>)
        requires
            old(self).wf(),
        ensures
            final(self).wf(),
            final(buf)@.len() == old(buf)@.len(),
            final(storage).faults() == old(storage).faults(),
            old(storage).items().is_prefix_of(final(storage).items()),
            old(self)@.refused() is Some ==> {
                &&& r matches Err(LoadStoreError::AppError(e)) && e == old(self)@.refused()->0
                &&& final(self)@ == old(self)@
                &&& final(storage).items() == old(storage).items()
            },
            old(self)@.refused() is None && !old(self)@.unwritten() ==> {
                &&& r matches Ok(counters)
                &&& counters.total_bytes_read == 0
                &&& counters.current_bytes_written == 0
                &&& final(self)@ == old(self)@
                &&& final(storage).items() == old(storage).items()
            },
            old(self)@.refused() is None && old(self)@.unwritten() ==> ({
                let list = old(self)@;
                let before = old(storage).items();
                let after = final(storage).items();
                let fit = all_fit(list.nodes, old(buf)@.len());
                match r {
                    Ok(counters) => {
                        &&& fit
                        &&& list.read_back(after) is Some
                        &&& final(self)@ == list.after_write(list.read_back(after)->0)
                        &&& counters.total_bytes_read == counted(
                            total_len(after.take(list.read_back(after)->0.end + 1)),
                        )
                        &&& S::faithful() ==> appended(before, after, list.next_record())
                            && counters.current_bytes_written == counted(
                            total_len(after.skip(before.len() as int)),
                        )
                    },
                    Err(e) => {
                        &&& match e {
                            LoadStoreError::FlashWrite(fault) => old(
                                storage,
                            ).faults().write.contains(fault),
                            LoadStoreError::FlashRead(fault) => old(
                                storage,
                            ).faults().read.contains(fault),
                            LoadStoreError::WriteVerificationFailed => fit && list.read_back(after)
                                is None && first_start(after, list.seq.next_seq->0) is Some,
                            LoadStoreError::AppError(app) => match app {
                                Error::Serialization => !fit,
                                Error::InconsistentFlash => fit && first_start(
                                    after,
                                    list.seq.next_seq->0,
                                ) is None,
                                _ => false,
                            },
                        }
                        &&& S::faithful() ==> appended_in_part(before, after, list.next_record())
                        // all has been written, and an older record has been read back
                        &&& S::faithful() && (e is WriteVerificationFailed || is_inconsistent(e))
                            ==> appended(before, after, list.next_record()) && first_start(
                            before,
                            list.seq.next_seq->0,
                        ) is Some
                        // the number is spent unless the Start element could not be written
                        &&& final(self)@ == list.after_failed_write() || (e is FlashWrite
                            && at_most_one_more(before, after) && final(self)@ == list)
                        &&& S::faithful() && after == before ==> final(self)@ == list
                    },
                }
            }),
            S::faithful() ==> old(self)@.write_leads_to(
                old(storage).items(),
                final(self)@,
                final(storage).items(),
            ),
            S::faithful() && r is Ok ==> old(self)@.write_succeeds(
                old(storage).items(),
                final(self)@,
                final(storage).items(),
            ),
            // no value is changed, and none needs a write after a write that has ended well
            final(self)@.nodes.len() == old(self)@.nodes.len(),
            forall|i: int|
                0 <= i < old(self)@.nodes.len() ==> (#[trigger] final(self)@.nodes[i]).value
                    == old(self)@.nodes[i].value && final(self)@.nodes[i].key
                    == old(self)@.nodes[i].key,
            r is Ok ==> forall|i: int|
                0 <= i < final(self)@.nodes.len() ==> !((#[trigger] final(self)@.nodes[i]).state
                    is NeedsWrite),
            r is Ok && (exists|i: int|
                0 <= i < old(self)@.nodes.len() && (#[trigger] old(self)@.nodes[i]).state
                    is NeedsWrite) && S::faithful() ==> final(storage).items().len() > old(
                storage,
            ).items().len(),
            // once the storage has been scanned and collected, and all nodes have been read, a
            // write ends well where nothing fails, all values fit, and the number is new
            old(self)@.seq.next_seq is Some && !old(self)@.seq.needs_gc && (forall|i: int|
                0 <= i < old(self)@.nodes.len() ==> !((#[trigger] old(self)@.nodes[i]).state
                    is Initial)) && (forall|i: int|
                0 <= i < old(self)@.nodes.len() && (#[trigger] old(self)@.nodes[i]).value is Some
                    ==> ({
                    let node = old(self)@.nodes[i];
                    node.vtable.encoded(node.value->0) matches Some(bytes) && 1 + cbor::text(
                        node.key,
                    ).len() + bytes.len() <= old(buf)@.len()
                })) && (forall|e: S::Error|
                !(#[trigger] old(storage).faults().read.contains(e))) && (forall|e: S::Error|
                !(#[trigger] old(storage).faults().write.contains(e))) && S::faithful() && (forall|
                k: int,
            |
                0 <= k < old(storage).items().len() ==> (#[trigger] old(storage).items()[k]).elem
                    != Some(ElemView::Start { seq: old(self)@.seq.next_seq->0 })) ==> r is Ok,
            // what cannot fail, and keeps what is pushed, is written
            old(self)@.refused() is None && old(self)@.unwritten() && old(storage).faults().never()
                && S::faithful() && all_fit(old(self)@.nodes, old(buf)@.len()) && first_start(
                old(storage).items(),
                old(self)@.seq.next_seq->0,
            ) is None ==> r is Ok,
            // nothing is written where every access fails
            old(self)@.refused() is None && old(self)@.unwritten() ==> (old(
                storage,
            ).faults().always matches Some(fault) ==> {
                &&& r matches Err(LoadStoreError::FlashWrite(e)) && e == fault
                &&& final(self)@ == old(self)@
            }),
    {
        let ghost list = self@;
        let ghost items = storage.items();
        let next_seq: SeqNo = match self.begin_write() {
            Ok(Some(next_seq)) => next_seq,
            Ok(None) => {
                return Ok(ProcessWriteCounters { total_bytes_read: 0, current_bytes_written: 0 });
            },
            Err(e) => {
                return Err(LoadStoreError::AppError(e));
            },
        };
        let rpt: WriteReport = match self.write_to_flash(buf, storage, next_seq) {
            Ok(rpt) => rpt,
            Err((e, started)) => {
                if started {
                    self.abandon_write();
                }
                return Err(e);
            },
        };
        let ghost after = storage.items();
        proof {
            if S::faithful() {
                lemma_appended_in_part(items, after, after, list.next_record(), list.next_record());
            }
        }
        // Read back all items in the list and verify the data on the flash
        // actually is what we wanted to write.
        let (range, total_bytes_read): (ItemRange, usize) = match verify_list_in_flash(
            storage,
            rpt,
        ) {
            Ok(found) => found,
            Err(e) => {
                proof {
                    let seq = next_seq@;
                    lemma_first_start(items, seq);
                    if S::faithful() && first_start(items, seq) is None {
                        lemma_unwritten_has_data(list);
                        law_complete_write_is_read_back(items, after, list.nodes, seq);
                    }
                }
                self.abandon_write();
                return Err(e);
            },
        };
        // The write must have succeeded. So mark all nodes accordingly.
        self.finish_write(next_seq, range);
        Ok(ProcessWriteCounters { total_bytes_read, current_bytes_written: rpt.bytes_written })
    }

    /// Process garbage collection
    ///
    /// All items are invalidated but those of the records that are kept, then the storage is
    /// scanned again. Where a step fails, the list knows nothing of the storage any more, and
    /// the storage has to be read again before the next write.
    pub fn process_garbage<S: NdlDataStorage>(&mut self, storage: &mut S) -> (r: Result<
        ProcessGarbageCounters,
        LoadStoreError<S::Error>,
    >)
        requires
            old(self).wf(),
        ensures
            final(self).wf(),
            final(storage).faults() == old(storage).faults(),
            !old(self)@.seq.needs_gc ==> {
                &&& r matches Ok(counters)
                &&& counters.total_bytes_read == 0
                &&& counters.post_collection_bytes_read == 0
                &&& counters.total_bytes_popped == 0
                &&& final(self)@ == old(self)@
                &&& final(storage).items() == old(storage).items()
            },
            old(self)@.seq.needs_gc ==> ({
                let items = old(storage).items();
                let seq = old(self)@.seq;
                match r {
                    Ok(counters) => {
                        &&& final(self)@ == old(self)@.after_garbage(items)
                        &&& final(storage).items() == kept(items, seq)
                        &&& counters.total_bytes_read == counted(
                            total_len(items) + total_len(kept(items, seq)),
                        )
                        &&& counters.post_collection_bytes_read == counted(
                            total_len(kept(items, seq)),
                        )
                        &&& counters.total_bytes_popped == counted(total_len(popped(items, seq)))
                    },
                    Err(e) => {
                        &&& match e {
                            LoadStoreError::FlashRead(fault) => old(
                                storage,
                            ).faults().read.contains(fault),
                            LoadStoreError::FlashWrite(fault) => old(
                                storage,
                            ).faults().write.contains(fault),
                            _ => false,
                        }
                        &&& final(self)@ == old(self)@.forgotten()
                        &&& collected_in_part(items, seq, final(storage).items())
                    },
                }
            }),
            old(self)@.garbage_leads_to(
                old(storage).items(),
                final(self)@,
                final(storage).items(),
            ),
            final(self)@.nodes == old(self)@.nodes,
            // what is counted as popped is what the storage has lost
            r matches Ok(counters) ==> total_len(final(storage).items()) <= total_len(
                old(storage).items(),
            ) && counters.total_bytes_popped == counted(
                (total_len(old(storage).items()) - total_len(final(storage).items())) as nat,
            ),
            old(self)@.seq.needs_gc ==> (old(storage).faults().always matches Some(fault) ==> {
                &&& r matches Err(LoadStoreError::FlashRead(e)) && e == fault
                &&& final(storage).items() == old(storage).items()
            }),
    {
        let ghost items = storage.items();
        let ghost seq = self@.seq;
        let cur_seq_state: SeqState<KEPT_RECORDS> = match self.begin_garbage() {
            Some(known) => known,
            None => {
                return Ok(
                    ProcessGarbageCounters {
                        total_bytes_read: 0,
                        post_collection_bytes_read: 0,
                        total_bytes_popped: 0,
                    },
                );
            },
        };
        let ghost forgotten = self@;
        let mut total_bytes_read: usize = 0;
        let mut total_bytes_popped: usize = 0;
        proof {
            assert(items.take(0) =~= Seq::<ItemView>::empty());
            assert(kept(items.take(0), seq) + items.skip(0) =~= items);
        }
        let mut iter = match storage.iter_elems() {
            Ok(iter) => iter,
            Err(e) => {
                return Err(LoadStoreError::FlashRead(e));
            },
        };
        // Begin iterating, keeping track of our index in the iterator
        let mut idx: usize = 0;
        loop
            invariant_except_break
                idx <= items.len(),
                storage.items() == kept(items.take(idx as int), seq) + items.skip(idx as int),
                S::position(&iter) == kept(items.take(idx as int), seq).len(),
                total_bytes_read == counted(total_len(items.take(idx as int))),
                total_bytes_popped == counted(total_len(popped(items.take(idx as int), seq))),
                items.len() <= usize::MAX,
            invariant
                storage.faults() == old(storage).faults(),
                old(storage).faults().always is None,
                items == old(storage).items(),
                seq == old(self)@.seq,
                cur_seq_state@ == seq,
                self@ == forgotten,
                self.wf(),
                forgotten == old(self)@.forgotten(),
                old(self)@.seq.needs_gc,
            ensures
                storage.items() == kept(items, seq),
                total_bytes_read == counted(total_len(items)),
                total_bytes_popped == counted(total_len(popped(items, seq))),
            decreases items.len() - idx,
        {
            let ghost front = kept(items.take(idx as int), seq);
            let ghost rest = items.skip(idx as int);
            let this_idx: usize = idx;
            match storage.next(&mut iter) {
                Ok(Some(next)) => {
                    proof {
                        let more = items.take(idx + 1);
                        assert(rest[0] == items[idx as int]);
                        assert(more.drop_last() =~= items.take(idx as int));
                        assert(more.last() == items[idx as int]);
                        assert(front.push(items[idx as int]) + items.skip(idx + 1) =~= front
                            + rest);
                        assert((front + rest).remove(front.len() as int) =~= front + items.skip(
                            idx + 1,
                        ));
                        lemma_total_len_push(
                            popped(items.take(idx as int), seq),
                            items[idx as int],
                        );
                        lemma_total_len_push(items.take(idx as int), items[idx as int]);
                        assert(items.take(idx as int).push(items[idx as int]) =~= more);
                    }
                    idx = idx + 1;
                    let used: usize = next.len();
                    total_bytes_read = count(total_bytes_read, used);
                    if cur_seq_state.collects(next.data().is_some(), this_idx) {
                        total_bytes_popped = count(total_bytes_popped, used);
                        match storage.invalidate(&mut iter, next) {
                            Ok(()) => {},
                            Err(e) => {
                                proof {
                                    let n = this_idx as int;
                                    assert(storage.items() == kept(items.take(n), seq)
                                        + items.skip(n) || storage.items() == kept(
                                        items.take(n + 1),
                                        seq,
                                    ) + items.skip(n + 1));
                                }
                                return Err(LoadStoreError::FlashWrite(e));
                            },
                        }
                    }
                },
                Ok(None) => {
                    // End of list reached
                    proof {
                        assert(items.take(idx as int) =~= items);
                        assert(front + rest =~= front);
                    }
                    break;
                },
                Err(e) => {
                    return Err(LoadStoreError::FlashRead(e));
                },
            }
        }
        let ghost left = storage.items();
        match self.get_or_populate_latest(storage) {
            Ok((_latest, post_collection_bytes_read)) => {
                self.finish_garbage(&cur_seq_state);
                proof {
                    lemma_counted_sum(total_len(items), total_len(left));
                    law_a_collection_parts_the_items(items, seq);
                }
                total_bytes_read = count(total_bytes_read, post_collection_bytes_read);
                Ok(
                    ProcessGarbageCounters {
                        total_bytes_read,
                        post_collection_bytes_read,
                        total_bytes_popped,
                    },
                )
            },
            Err(e) => {
                proof {
                    assert(items.take(items.len() as int) =~= items);
                    assert(left =~= kept(items.take(items.len() as int), seq) + items.skip(
                        items.len() as int,
                    ));
                }
                Err(e)
            },
        }
    }

    /// Whether the list has to be written.
    fn needs_writing(&self) -> (r: Result<bool, Error>)
        requires
            self.wf(),
        ensures
            match r {
                Ok(needed) => {
                    &&& forall|i: int|
                        0 <= i < self@.nodes.len() ==> !((#[trigger] self@.nodes[i]).state
                            is Initial)
                    &&& needed == self@.unwritten()
                },
                Err(e) => e is NeedsFirstRead && exists|i: int|
                    0 <= i < self@.nodes.len() && (#[trigger] self@.nodes[i]).state is Initial,
            },
    {
        let ghost nodes = self@.nodes;
        // Set to true if any node in the list needs writing
        let mut needs_writing = false;
        // Set to true if any node in the list has a value
        let mut has_value = false;
        let n: usize = self.nodes.len();
        let mut i: usize = 0;
        while i < n
            invariant
                i <= n,
                n == self.nodes@.len(),
                nodes == self@.nodes,
                forall|k: int| 0 <= k < i ==> !((#[trigger] nodes[k]).state is Initial),
                needs_writing <==> exists|k: int|
                    0 <= k < i && (#[trigger] nodes[k]).state is NeedsWrite,
                has_value <==> exists|k: int|
                    0 <= k < i && (#[trigger] nodes[k]).state.has_value(),
            decreases n - i,
        {
            assert(nodes[i as int] == self.nodes@[i as int]@);
            match self.nodes[i].state {
                // If no write is needed, we obviously won't write.
                State::ValidNoWriteNeeded => {
                    has_value = true;
                },
                // The node has been changed (including default write-backs) but not
                // written to flash yet.
                State::NeedsWrite => {
                    needs_writing = true;
                    has_value = true;
                },
                // A node may be in `Initial` state, if it has been attached but
                // `process_reads` hasn't run, yet.
                State::Initial => {
                    return Err(Error::NeedsFirstRead);
                },
                // A node may be NonResident if we are quickly doing a write after an
                // initial read, but the storage node has not yet had a chance to
                // initialize itself with a default value. Just skip.
                State::NonResident => {},
            }
            i += 1;
        }
        // If NONE of the items need writing, BUT we also have no data on disk, then
        // we should perform a write-back, if there is anything to write.
        Ok(needs_writing || (has_value && self.seq_state.highest_seen().is_none()))
    }

    /// Marks the nodes that have been written.
    fn mark_flushed(&mut self)
        requires
            old(self).wf(),
        ensures
            final(self).wf(),
            final(self)@ == (ListView { nodes: all_flushed(old(self)@.nodes), ..old(self)@ }),
    {
        let ghost nodes = self@.nodes;
        let n: usize = self.nodes.len();
        let mut i: usize = 0;
        while i < n
            invariant
                i <= n,
                n == nodes.len(),
                nodes == old(self)@.nodes,
                self.seq_state == old(self).seq_state,
                self@ == (ListView { nodes: self@.nodes, ..old(self)@ }),
                self.nodes@.len() == n,
                forall|k: int| 0 <= k < i ==> (#[trigger] self.nodes@[k])@ == nodes[k].flushed(),
                forall|k: int| i <= k < n ==> (#[trigger] self.nodes@[k])@ == nodes[k],
            decreases n - i,
        {
            match self.nodes[i].state {
                // We DO NOT update any nodes without a value
                State::Initial | State::NonResident => {},
                State::ValidNoWriteNeeded | State::NeedsWrite => {
                    self.nodes[i].state = State::ValidNoWriteNeeded;
                },
            }
            i += 1;
        }
        assert(self@.nodes =~= all_flushed(nodes));
        proof {
            lemma_flushed_wf(nodes);
        }
    }

    /// Writes all nodes in the storage list to flash memory.
    ///
    /// This function iterates through all nodes in the storage list, serializes each node's
    /// data into the provided buffer, and writes it to flash.
    /// Each node is written as a separate flash item containing its key and serialized payload.
    ///
    /// An error comes with whether the Start element has been written.
    fn write_to_flash<S: NdlDataStorage>(
        &self,
        buf: &mut [u8],
        storage: &mut S,
        seq_no: SeqNo,
    ) -> (r: Result<WriteReport, (LoadStoreError<S::Error>, bool)>)
        requires
            self.wf(),
        ensures
            final(buf)@.len() == old(buf)@.len(),
            final(storage).faults() == old(storage).faults(),
            old(storage).items().is_prefix_of(final(storage).items()),
            ({
                let elems = record_elems(self@.nodes, seq_no@);
                let fit = all_fit(self@.nodes, old(buf)@.len());
                match r {
                    Ok(rpt) => {
                        &&& fit
                        &&& rpt.seq@ == seq_no@
                        &&& rpt.crc == crc32_of(all_key_vals(self@.nodes))
                        &&& rpt.ct == data_elems(self@.nodes).len()
                        &&& S::faithful() ==> appended(
                            old(storage).items(),
                            final(storage).items(),
                            elems,
                        ) && rpt.bytes_written == counted(
                            total_len(
                                final(storage).items().skip(old(storage).items().len() as int),
                            ),
                        )
                    },
                    Err((e, started)) => {
                        &&& match e {
                            LoadStoreError::FlashWrite(fault) => old(
                                storage,
                            ).faults().write.contains(fault),
                            _ => is_unserializable(e) && !fit,
                        }
                        &&& !started ==> e is FlashWrite && at_most_one_more(
                            old(storage).items(),
                            final(storage).items(),
                        )
                        &&& S::faithful() && !started ==> appended_in_part(
                            old(storage).items(),
                            final(storage).items(),
                            elems.take(1),
                        )
                        &&& S::faithful() && started ==> final(storage).items().len() > old(
                            storage,
                        ).items().len()
                        &&& S::faithful() ==> appended_in_part(
                            old(storage).items(),
                            final(storage).items(),
                            elems,
                        )
                    },
                }
            }),
            old(storage).faults().always matches Some(fault) ==> (r matches Err((
                LoadStoreError::FlashWrite(e),
                started,
            )) && e == fault && !started),
    {
        let ghost items = storage.items();
        let ghost nodes = self@.nodes;
        let ghost capacity = buf@.len();
        let ghost seq = seq_no@;
        let ghost all = record_elems(nodes, seq);
        let ghost first = seq![ElemView::Start { seq }];
        let mut writing: Writing<T, V> = Writing::new(seq_no);
        assert(items.skip(items.len() as int) =~= Seq::<ItemView>::empty());
        let used: usize = match storage.push(&writing.start_elem()) {
            Ok(used) => used,
            Err(e) => {
                proof {
                    if S::faithful() {
                        let none = Seq::<ElemView>::empty();
                        assert(none.is_prefix_of(all) && none.is_prefix_of(all.take(1)));
                        lemma_appended_in_part(items, items, storage.items(), none, all);
                        lemma_appended_in_part(items, items, storage.items(), none, all.take(1));
                    }
                }
                return Err((LoadStoreError::FlashWrite(e), false));
            },
        };
        writing.pushed(used);
        proof {
            if S::faithful() {
                let item = ItemView { elem: Some(ElemView::Start { seq }), len: used as nat };
                lemma_appended_push(items, items, Seq::empty(), item);
                assert(Seq::<ElemView>::empty().push(ElemView::Start { seq }) =~= first);
            }
            assert(nodes.take(0) =~= Seq::<NodeView<T, V>>::empty());
            assert(first + data_elems(nodes.take(0)) =~= first);
        }
        let n: usize = self.nodes.len();
        let mut i: usize = 0;
        while i < n
            invariant
                i <= n,
                n == self.nodes@.len(),
                self.wf(),
                nodes == self@.nodes,
                buf@.len() == capacity,
                writing.wf(),
                writing.number() == seq,
                writing.nodes() == nodes.take(i as int),
                storage.faults() == old(storage).faults(),
                old(storage).faults().always is None,
                items == old(storage).items(),
                items.is_prefix_of(storage.items()),
                all == record_elems(nodes, seq),
                first == seq![ElemView::Start { seq }],
                capacity == old(buf)@.len(),
                seq == seq_no@,
                forall|k: int|
                    0 <= k < i && nodes[k].state.has_value() ==> (#[trigger] nodes[k]).fits(
                        capacity,
                    ),
                S::faithful() ==> appended(
                    items,
                    storage.items(),
                    first + data_elems(nodes.take(i as int)),
                ),
                S::faithful() ==> writing.written() == total_len(
                    storage.items().skip(items.len() as int),
                ),
            decreases n - i,
        {
            let ghost elems = first + data_elems(nodes.take(i as int));
            let ghost mid = storage.items();
            proof {
                assert(nodes[i as int] == self.nodes@[i as int]@);
                assert(nodes[i as int].wf());
                assert(nodes.take(i + 1) =~= nodes.take(i as int).push(nodes[i as int]));
                assert(nodes.take(i + 1).drop_last() =~= nodes.take(i as int));
                lemma_data_elems_prefix(nodes, i as int);
                assert(elems.is_prefix_of(all));
            }
            match self.write_step(&mut writing, i, buf) {
                // the node holds no value: we can't write this
                Ok(None) => {},
                Ok(Some(elem)) => {
                    match storage.push(&elem) {
                        Ok(used) => {
                            writing.pushed(used);
                            proof {
                                if S::faithful() {
                                    let item = ItemView { elem: Some(elem@), len: used as nat };
                                    lemma_appended_push(items, mid, elems, item);
                                    assert(elems.push(elem@) =~= first + data_elems(
                                        nodes.take(i + 1),
                                    ));
                                }
                            }
                        },
                        Err(e) => {
                            proof {
                                if S::faithful() {
                                    lemma_data_elems_prefix(nodes, i + 1);
                                    let more = first + data_elems(nodes.take(i + 1));
                                    assert(more =~= elems.push(elem@));
                                    assert(all[elems.len() as int] == more[elems.len() as int]);
                                    lemma_appended_in_part(
                                        items,
                                        mid,
                                        storage.items(),
                                        elems,
                                        all,
                                    );
                                }
                            }
                            return Err((LoadStoreError::FlashWrite(e), true));
                        },
                    }
                },
                Err(e) => {
                    proof {
                        if S::faithful() {
                            lemma_appended_in_part(items, mid, storage.items(), elems, all);
                        }
                        assert(!nodes[i as int].fits(capacity));
                    }
                    return Err((LoadStoreError::AppError(e), true));
                },
            }
            i += 1;
        }
        proof {
            assert(nodes.take(n as int) =~= nodes);
        }
        let ghost elems = first + data_elems(nodes);
        let ghost mid = storage.items();
        let (end, mut rpt): (Elem<'static>, WriteReport) = writing.finish();
        match storage.push(&end) {
            Ok(used) => {
                rpt.bytes_written = count(rpt.bytes_written, used);
                proof {
                    if S::faithful() {
                        let item = ItemView { elem: Some(end@), len: used as nat };
                        lemma_appended_push(items, mid, elems, item);
                        assert(elems.push(end@) =~= all);
                    }
                }
                Ok(rpt)
            },
            Err(e) => {
                proof {
                    if S::faithful() {
                        assert(elems.is_prefix_of(all));
                        lemma_appended_in_part(items, mid, storage.items(), elems, all);
                    }
                }
                Err((LoadStoreError::FlashWrite(e), true))
            },
        }
    }

    /// Iterates over all nodes, and changes Initial nodes to NonResident
    pub fn mark_initial_nonresident(&mut self)
        requires
            old(self).wf(),
        ensures
            final(self).wf(),
            final(self)@ == (ListView { nodes: all_settled(old(self)@.nodes), ..old(self)@ }),
    {
        let ghost nodes = self@.nodes;
        let n: usize = self.nodes.len();
        let mut i: usize = 0;
        while i < n
            invariant
                i <= n,
                n == nodes.len(),
                nodes == old(self)@.nodes,
                self.seq_state == old(self).seq_state,
                self@ == (ListView { nodes: self@.nodes, ..old(self)@ }),
                self.nodes@.len() == n,
                forall|k: int| 0 <= k < i ==> (#[trigger] self.nodes@[k])@ == nodes[k].settled(),
                forall|k: int| i <= k < n ==> (#[trigger] self.nodes@[k])@ == nodes[k],
            decreases n - i,
        {
            if let State::Initial = self.nodes[i].state {
                self.nodes[i].state = State::NonResident;
            }
            i += 1;
        }
        assert(self@.nodes =~= all_settled(nodes));
        proof {
            lemma_settled_wf(nodes);
        }
    }

    /// Gets the highest seen item, performing an initial read if not yet performed
    ///
    /// Returns the most recent valid Write Record, if there is one, and the bytes that have
    /// been read. An error while accessing the storage leaves the list as it was.
    fn get_or_populate_latest<S: NdlDataStorage>(&mut self, s: &mut S) -> (r: Result<
        (Option<GoodWriteRecord>, usize),
        LoadStoreError<S::Error>,
    >)
        requires
            old(self).wf(),
        ensures
            final(self).wf(),
            final(s).items() == old(s).items(),
            final(s).faults() == old(s).faults(),
            match r {
                Ok((latest, bytes_read)) => {
                    &&& final(self)@ == old(self)@.after_scan(old(s).items())
                    &&& slot_view(latest) == final(self)@.seq.highest()
                    &&& bytes_read == counted(total_len(old(self)@.scan_pass(old(s).items())))
                },
                Err(e) => {
                    &&& old(self)@.seq.next_seq is None
                    &&& final(self)@ == old(self)@
                    &&& e matches LoadStoreError::FlashRead(fault) && old(s).faults().read.contains(
                        fault,
                    )
                },
            },
            old(self)@.seq.next_seq is None ==> (old(s).faults().always matches Some(fault) ==> (
            r matches Err(LoadStoreError::FlashRead(e)) && e == fault)),
    {
        let ghost items = s.items();
        let mut scan: Scan<KEPT_RECORDS> = match self.begin_scan() {
            Some(scan) => scan,
            None => {
                return Ok((self.latest(), 0));
            },
        };
        let mut iter = match s.iter_elems() {
            Ok(iter) => iter,
            Err(e) => {
                return Err(LoadStoreError::FlashRead(e));
            },
        };
        assert(items.take(0) =~= Seq::<ItemView>::empty());
        // Loop over all elements in the storage...
        loop
            invariant_except_break
                scan.wf(),
                scan.begun() == self.seq_state@,
                scan.items() == items.take(S::position(&iter) as int),
                S::position(&iter) <= items.len(),
                items.len() <= usize::MAX,
            invariant
                s.items() == items,
                s.faults() == old(s).faults(),
                old(self)@.seq.next_seq is None,
                *self == *old(self),
                old(self).wf(),
                items == old(s).items(),
            ensures
                scan.wf(),
                scan.begun() == self.seq_state@,
                scan.items() == items,
            decreases items.len() - S::position(&iter),
        {
            let ghost at = S::position(&iter) as int;
            match s.next(&mut iter) {
                Ok(Some(item)) => {
                    scan.step(item.data(), item.len());
                    assert(items.take(at + 1) =~= items.take(at).push(items[at]));
                },
                Ok(None) => {
                    assert(items.take(at) =~= items);
                    break;
                },
                Err(e) => {
                    return Err(LoadStoreError::FlashRead(e));
                },
            }
        }
        let bytes_read: usize = scan.bytes_read();
        self.finish_scan(scan);
        Ok((self.latest(), bytes_read))
    }

    /// Extract all data for all `State::Initial` nodes from the given record
    ///
    /// Attempts to iterate over all data elements in the current highest Write Record,
    /// and if a node matching that key exists and is in the Initial state, deserialize
    /// data into it. Returns the bytes that have been read, and those of the data elements.
    fn extract_all<S: NdlDataStorage>(&mut self, latest: GoodWriteRecord, storage: &mut S) -> (r:
        Result<(usize, usize), LoadStoreError<S::Error>>)
        requires
            old(self).wf(),
        ensures
            final(self).wf(),
            final(storage).items() == old(storage).items(),
            final(storage).faults() == old(storage).faults(),
            final(self)@ == (ListView { nodes: final(self)@.nodes, ..old(self)@ }),
            ({
                let items = old(storage).items();
                let data = extracted(items, latest@);
                match r {
                    Ok((total, current)) => {
                        &&& extractable(items, latest@)
                        &&& final(self)@.nodes == all_hydrated(old(self)@.nodes, data)
                        &&& total == counted(
                            total_len(items.take(data_end(items, latest@.start + 1) + 1)),
                        )
                        &&& current == counted(total_len(data))
                    },
                    Err(e) => {
                        &&& hydrated_in_part(old(self)@.nodes, data, final(self)@.nodes)
                        &&& match e {
                            LoadStoreError::FlashRead(fault) => old(
                                storage,
                            ).faults().read.contains(fault),
                            _ => {
                                &&& is_inconsistent(e)
                                &&& !extractable(items, latest@)
                                &&& final(self)@.nodes == all_hydrated(old(self)@.nodes, data)
                            },
                        }
                    },
                }
            }),
            old(storage).faults().always matches Some(fault) ==> {
                &&& r matches Err(LoadStoreError::FlashRead(e)) && e == fault
                &&& final(self)@ == old(self)@
            },
    {
        let ghost items = storage.items();
        let ghost nodes = self@.nodes;
        let ghost record = latest@;
        proof {
            lemma_hydrated_empty(nodes);
        }
        let mut iter = match storage.iter_elems() {
            Ok(iter) => iter,
            Err(e) => {
                proof {
                    assert(extracted(items, record).take(0) =~= Seq::<ItemView>::empty());
                }
                return Err(LoadStoreError::FlashRead(e));
            },
        };
        let mut extract = Extract::new(latest);
        assert(items.take(0) =~= Seq::<ItemView>::empty());
        assert(extract.data() =~= Seq::<ItemView>::empty());
        loop
            invariant
                extract.wf(),
                extract.record() == record,
                extract.items() == items.take(S::position(&iter) as int),
                S::position(&iter) <= items.len(),
                items.len() <= usize::MAX,
                storage.items() == items,
                storage.faults() == old(storage).faults(),
                old(storage).faults().always is None,
                old(self).wf(),
                items == old(storage).items(),
                record == latest@,
                nodes == old(self)@.nodes,
                self@ == (ListView { nodes: self@.nodes, ..old(self)@ }),
                self.wf(),
                self@.nodes == all_hydrated(nodes, extract.data()),
            decreases items.len() - S::position(&iter),
        {
            let ghost at = S::position(&iter) as int;
            let ghost data = extract.data();
            let ghost start = record.start;
            proof {
                extract.lemma_wf();
                lemma_hydrated_wf(nodes, data);
                lemma_extracting(items, record, at);
            }
            match storage.next(&mut iter) {
                Ok(Some(item)) => {
                    let elem = item.data();
                    let len: usize = item.len();
                    match self.extract_step(&mut extract, Read::Item(elem, len)) {
                        ExtractStep::Continue => {
                            proof {
                                assert(items.take(at + 1) =~= items.take(at).push(items[at]));
                                if at > start {
                                    lemma_hydrated_push(nodes, data, items[at]);
                                    assert(extract.data() =~= data.push(items[at]));
                                } else {
                                    assert(extract.data() =~= data);
                                }
                            }
                        },
                        ExtractStep::Done => {
                            proof {
                                lemma_total_len_push(items.take(at), items[at]);
                                assert(items.take(at + 1) =~= items.take(at).push(items[at]));
                            }
                            return Ok((extract.total_bytes_read(), extract.current_bytes_read()));
                        },
                        _ => {
                            return Err(LoadStoreError::AppError(Error::InconsistentFlash));
                        },
                    }
                },
                Ok(None) => {
                    // end of list - we did NOT hit a good End record!
                    self.extract_step(&mut extract, Read::End);
                    return Err(LoadStoreError::AppError(Error::InconsistentFlash));
                },
                Err(e) => {
                    self.extract_step(&mut extract, Read::Failed);
                    return Err(LoadStoreError::FlashRead(e));
                },
            }
        }
    }
}

/// Verifies that the storage list was correctly written to flash memory.
///
/// This function checks the CRC of the given Write Record to ensure it was
/// stored to flash correctly, and returns where it is, and the bytes that have been read.
fn verify_list_in_flash<S: NdlDataStorage>(storage: &mut S, rpt: WriteReport) -> (r: Result<
    (ItemRange, usize),
    LoadStoreError<S::Error>,
>)
    ensures
        final(storage).items() == old(storage).items(),
        final(storage).faults() == old(storage).faults(),
        ({
            let items = old(storage).items();
            let found = verified(items, rpt.seq@, rpt.crc, rpt.ct as nat);
            match r {
                Ok((range, total)) => {
                    &&& found == Some(
                        RecordView {
                            seq: rpt.seq@,
                            start: range.start as int,
                            end: range.end as int,
                        },
                    )
                    &&& total == counted(total_len(items.take(range.end + 1)))
                },
                Err(e) => match e {
                    LoadStoreError::FlashRead(fault) => old(storage).faults().read.contains(fault),
                    LoadStoreError::WriteVerificationFailed => found is None && first_start(
                        items,
                        rpt.seq@,
                    ) is Some,
                    LoadStoreError::AppError(app) => app is InconsistentFlash && first_start(
                        items,
                        rpt.seq@,
                    ) is None,
                    LoadStoreError::FlashWrite(_) => false,
                },
            }
        }),
{
    let ghost items = storage.items();
    let mut iter = match storage.iter_elems() {
        Ok(iter) => iter,
        Err(e) => {
            return Err(LoadStoreError::FlashRead(e));
        },
    };
    let mut verify = Verify::new(rpt);
    assert(items.take(0) =~= Seq::<ItemView>::empty());
    loop
        invariant
            verify.wf(),
            verify.report() == rpt,
            verify.items() == items.take(S::position(&iter) as int),
            S::position(&iter) <= items.len(),
            items.len() <= usize::MAX,
            storage.items() == items,
            storage.faults() == old(storage).faults(),
            items == old(storage).items(),
        decreases items.len() - S::position(&iter),
    {
        let ghost at = S::position(&iter) as int;
        proof {
            verify.lemma_wf();
            lemma_verifying(items, rpt, at);
        }
        match storage.next(&mut iter) {
            Ok(Some(item)) => {
                let elem = item.data();
                let len: usize = item.len();
                proof {
                    assert(items.take(at + 1) =~= items.take(at).push(items[at]));
                    lemma_total_len_push(items.take(at), items[at]);
                }
                match verify.step(Read::Item(elem, len)) {
                    VerifyStep::Continue => {},
                    VerifyStep::Done(range) => {
                        return Ok((range, verify.total_bytes_read()));
                    },
                    _ => {
                        return Err(LoadStoreError::WriteVerificationFailed);
                    },
                }
            },
            Ok(None) => {
                return match verify.step(Read::End) {
                    VerifyStep::Inconsistent => Err(
                        LoadStoreError::AppError(Error::InconsistentFlash),
                    ),
                    _ => Err(LoadStoreError::WriteVerificationFailed),
                };
            },
            Err(e) => {
                verify.step(Read::Failed);
                return Err(LoadStoreError::FlashRead(e));
            },
        }
    }
}

} // verus!
