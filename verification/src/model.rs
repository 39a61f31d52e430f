//! What a list holds, and what the operations make of it.
use crate::crc32::crc32_of;
use crate::elem::ElemView;
use crate::error::{Error, LoadStoreError};
use crate::extract::{data_end, extractable, extracted};
use crate::record::{good_records, highest_start, RecordView};
use crate::seq_state::{later, SeqStateView};
use crate::storage::{perhaps_pushed, perhaps_torn, total_len, ItemView};
use crate::storage_node::{
    all_flushed, all_hydrated, all_settled, all_wf, distinct_keys, index_of, NodeView, State,
    VTable,
};
use crate::verify_record::verified;
use crate::write_record::{all_key_vals, data_elems, lemma_data_elems_some, record_elems};
use vstd::prelude::*;

verus! {

/// What a list holds.
pub struct ListView<T, V> {
    /// What tells the list from others.
    pub id: usize,
    /// The nodes, from the one that was attached last to the one that was attached first.
    pub nodes: Seq<NodeView<T, V>>,
    /// What is known of the storage.
    pub seq: SeqStateView,
    /// Whether a read has been asked for.
    pub needs_read: bool,
    /// Whether a write has been asked for.
    pub needs_write: bool,
}

impl<T, V> ListView<T, V> {
    /// A list without nodes that knows nothing of a storage.
    pub open spec fn empty(id: usize, kept: nat) -> Self {
        ListView {
            id,
            nodes: Seq::empty(),
            seq: SeqStateView::unscanned(kept),
            needs_read: false,
            needs_write: false,
        }
    }

    /// The keys are distinct, the nodes hold values where their states say so, and what is
    /// known of the storage is in order.
    pub open spec fn wf(self) -> bool {
        &&& distinct_keys(self.nodes)
        &&& all_wf(self.nodes)
        &&& self.seq.wf()
        &&& self.seq.records.len() > 0
    }
}

impl<T, V> ListView<T, V> {
    /// The node with the given key.
    pub open spec fn node(self, key: Seq<char>) -> NodeView<T, V> {
        self.nodes[index_of(self.nodes, key)]
    }

    /// The list after the value of the node with the given key has been replaced.
    pub open spec fn replaced(self, key: Seq<char>, t: T) -> Self {
        let node = NodeView { state: State::NeedsWrite, value: Some(t), ..self.node(key) };
        ListView { nodes: self.nodes.update(index_of(self.nodes, key), node), ..self }
    }

    /// The list after the node with the given key, which has been read, has been handed out: a
    /// node for which there was no data holds the default.
    pub open spec fn attached(self, key: Seq<char>, default: T) -> Self {
        if self.node(key).state is NonResident {
            self.replaced(key, default)
        } else {
            self
        }
    }
}

impl<T, V: VTable<T>> ListView<T, V> {
    /// The list once the storage has been scanned, which is done only where it has not been
    /// done before.
    pub open spec fn after_scan(self, items: Seq<ItemView>) -> Self {
        if self.seq.next_seq is Some {
            self
        } else {
            ListView { seq: self.seq.scanned(good_records(items), highest_start(items)), ..self }
        }
    }

    /// Whether the newest record is where the list knows it to be.
    pub open spec fn readable(self, items: Seq<ItemView>) -> bool {
        match self.seq.highest() {
            Some(r) => extractable(items, r),
            None => true,
        }
    }

    /// The data elements from which the nodes are hydrated.
    pub open spec fn hydrating(self, items: Seq<ItemView>) -> Seq<ItemView> {
        match self.seq.highest() {
            Some(r) => extracted(items, r),
            None => Seq::empty(),
        }
    }

    /// The items that are read to hydrate the nodes from a readable storage.
    pub open spec fn hydration_pass(self, items: Seq<ItemView>) -> Seq<ItemView> {
        match self.seq.highest() {
            Some(r) => items.take(data_end(items, r.start + 1) + 1),
            None => Seq::empty(),
        }
    }

    /// The list after a read of a readable storage: the nodes that waited for data have it,
    /// or know that there is none.
    pub open spec fn after_read(self, items: Seq<ItemView>) -> Self {
        let list = self.after_scan(items);
        ListView { nodes: all_settled(all_hydrated(list.nodes, list.hydrating(items))), ..list }
    }

    /// The items that are read to scan the storage, where that has not been done before.
    pub open spec fn scan_pass(self, items: Seq<ItemView>) -> Seq<ItemView> {
        if self.seq.next_seq is Some {
            Seq::empty()
        } else {
            items
        }
    }
}

impl<T, V: VTable<T>> ListView<T, V> {
    /// The error with which a write is refused: the storage has to be scanned first, then
    /// garbage has to be collected, and then all nodes have to be read.
    pub open spec fn refused(self) -> Option<Error> {
        if self.seq.next_seq is None {
            Some(Error::NeedsFirstRead)
        } else if self.seq.needs_gc {
            Some(Error::NeedsGarbageCollect)
        } else if exists|i: int|
            0 <= i < self.nodes.len() && (#[trigger] self.nodes[i]).state is Initial {
            Some(Error::NeedsFirstRead)
        } else {
            None
        }
    }

    /// Whether there is something to write: a changed value, or any value where the storage
    /// has no record.
    pub open spec fn unwritten(self) -> bool {
        ||| exists|i: int|
            0 <= i < self.nodes.len() && (#[trigger] self.nodes[i]).state is NeedsWrite
        ||| self.seq.highest() is None && exists|i: int|
            0 <= i < self.nodes.len() && (#[trigger] self.nodes[i]).state.has_value()
    }

    /// The elements of the next write record.
    pub open spec fn next_record(self) -> Seq<ElemView> {
        record_elems(self.nodes, self.seq.next_seq->0)
    }

    /// The next write record as a read-back finds it, if it does.
    pub open spec fn read_back(self, items: Seq<ItemView>) -> Option<RecordView> {
        verified(
            items,
            self.seq.next_seq->0,
            crc32_of(all_key_vals(self.nodes)),
            data_elems(self.nodes).len(),
        )
    }

    /// The list after a write has succeeded.
    pub open spec fn after_write(self, r: RecordView) -> Self {
        ListView { nodes: all_flushed(self.nodes), seq: self.seq.with(r), ..self }
    }

    /// The list after a write has failed.
    pub open spec fn after_failed_write(self) -> Self {
        ListView { seq: self.seq.without_next(), ..self }
    }
}

impl<T, V> ListView<T, V> {
    /// The list while a collection runs: it knows nothing of the storage.
    pub open spec fn forgotten(self) -> Self {
        ListView { seq: SeqStateView::unscanned(self.seq.records.len()), ..self }
    }

    /// The list after a collection: it knows what a new scan finds, and goes on with the
    /// number that it would have written next.
    pub open spec fn after_garbage(self, items: Seq<ItemView>) -> Self {
        let left = kept(items, self.seq);
        let seq = self.forgotten().seq.scanned(good_records(left), highest_start(left));
        ListView {
            seq: SeqStateView {
                next_seq: later(seq.next_seq, self.seq.next_seq),
                needs_gc: false,
                ..seq
            },
            ..self
        }
    }
}

impl<T, V> ListView<T, V> {
    /// Whether the list can become `after` when nodes are attached, detached or given new
    /// values, or reads and writes are asked for: what is known of the storage stays, and a
    /// node whose value needs no write is one that was there before.
    pub open spec fn nodes_lead_to(self, after: Self) -> bool {
        &&& after.seq == self.seq
        &&& forall|j: int|
            0 <= j < after.nodes.len() && (#[trigger] after.nodes[j]).state is ValidNoWriteNeeded
                ==> self.nodes.contains(after.nodes[j])
    }
}

impl<T, V: VTable<T>> ListView<T, V> {
    /// Whether a read, however it ends, can leave the list as `after`.
    pub open spec fn read_leads_to(self, items: Seq<ItemView>, after: Self) -> bool {
        let list = self.after_scan(items);
        ||| after == self
        ||| after == self.after_read(items)
        ||| after == (ListView { nodes: after.nodes, ..list }) && hydrated_in_part(
            self.nodes,
            list.hydrating(items),
            after.nodes,
        )
    }

    /// Whether a write to a storage that keeps what is pushed, however it ends, can leave the
    /// list as `after` and the storage with the items `left`.
    pub open spec fn write_leads_to(
        self,
        items: Seq<ItemView>,
        after: Self,
        left: Seq<ItemView>,
    ) -> bool {
        ||| after == self && left == items
        ||| self.refused() is None && self.unwritten() && {
            // the record has been written and read back
            ||| appended(items, left, self.next_record()) && self.read_back(left) is Some && after
                == self.after_write(self.read_back(left)->0)
            // the record has been begun
            ||| appended_in_part(items, left, self.next_record()) && after
                == self.after_failed_write()
            // not even the Start element has been written, as far as is known
            ||| appended_in_part(items, left, self.next_record().take(1)) && after == self
        }
    }

    /// Whether a write to a storage that keeps what is pushed, and that ends well, leaves the
    /// list as `after` and the storage with the items `left`.
    pub open spec fn write_succeeds(
        self,
        items: Seq<ItemView>,
        after: Self,
        left: Seq<ItemView>,
    ) -> bool {
        &&& self.refused() is None
        &&& if self.unwritten() {
            &&& appended(items, left, self.next_record())
            &&& self.read_back(left) is Some
            &&& after == self.after_write(self.read_back(left)->0)
        } else {
            after == self && left == items
        }
    }

    /// Whether a collection, however it ends, can leave the list as `after` and the storage
    /// with the items `left`.
    pub open spec fn garbage_leads_to(
        self,
        items: Seq<ItemView>,
        after: Self,
        left: Seq<ItemView>,
    ) -> bool {
        ||| after == self && left == items
        ||| self.seq.needs_gc && after == self.after_garbage(items) && left == kept(items, self.seq)
        ||| self.seq.needs_gc && after == self.forgotten() && collected_in_part(
            items,
            self.seq,
            left,
        )
    }
}

/// The items that survive a collection: those that decode and belong to a known record.
pub open spec fn kept(items: Seq<ItemView>, seq: SeqStateView) -> Seq<ItemView>
    decreases items.len(),
{
    if items.len() == 0 {
        Seq::empty()
    } else if items.last().elem is Some && seq.keeps(items.len() - 1) {
        kept(items.drop_last(), seq).push(items.last())
    } else {
        kept(items.drop_last(), seq)
    }
}

/// The items that do not survive a collection.
pub open spec fn popped(items: Seq<ItemView>, seq: SeqStateView) -> Seq<ItemView>
    decreases items.len(),
{
    if items.len() == 0 {
        Seq::empty()
    } else if items.last().elem is Some && seq.keeps(items.len() - 1) {
        popped(items.drop_last(), seq)
    } else {
        popped(items.drop_last(), seq).push(items.last())
    }
}

/// Whether `after` is what is left when only the first items have been collected.
pub open spec fn collected_in_part(
    before: Seq<ItemView>,
    seq: SeqStateView,
    after: Seq<ItemView>,
) -> bool {
    exists|n: int|
        0 <= n <= before.len() && after == kept(#[trigger] before.take(n), seq) + before.skip(n)
}

/// Whether the nodes have been hydrated from some of the data, in order from the first.
pub open spec fn hydrated_in_part<T, V: VTable<T>>(
    before: Seq<NodeView<T, V>>,
    data: Seq<ItemView>,
    after: Seq<NodeView<T, V>>,
) -> bool {
    exists|k: int|
        0 <= k <= data.len() && after == all_hydrated(before, #[trigger] data.take(k))
}

/// Whether `after` is `before` with the given elements behind it.
pub open spec fn appended(
    before: Seq<ItemView>,
    after: Seq<ItemView>,
    elems: Seq<ElemView>,
) -> bool {
    &&& after.len() == before.len() + elems.len()
    &&& forall|i: int| 0 <= i < before.len() ==> #[trigger] after[i] == before[i]
    &&& forall|i: int|
        before.len() <= i < after.len() ==> (#[trigger] after[i]).elem == Some(
            elems[i - before.len()],
        )
}

/// Whether `after` is `before` with some of the given elements behind it, in order from the
/// first, and perhaps, where some are missing, one item more that does not decode.
pub open spec fn appended_in_part(
    before: Seq<ItemView>,
    after: Seq<ItemView>,
    elems: Seq<ElemView>,
) -> bool {
    exists|k: int, mid: Seq<ItemView>|
        0 <= k <= elems.len() && appended(before, mid, #[trigger] elems.take(k))
            && #[trigger] perhaps_torn(mid, after) && (k == elems.len() ==> after == mid)
}

/// Whether the error says that the storage does not hold what it is known to hold.
pub open spec fn is_inconsistent<E>(e: LoadStoreError<E>) -> bool {
    e matches LoadStoreError::AppError(app) && app is InconsistentFlash
}

/// Whether the error says that a node could not be serialized.
pub open spec fn is_unserializable<E>(e: LoadStoreError<E>) -> bool {
    e matches LoadStoreError::AppError(app) && app is Serialization
}

/// A list that has something to write has a value to write.
pub proof fn lemma_unwritten_has_data<T, V: VTable<T>>(list: ListView<T, V>)
    requires
        list.unwritten(),
    ensures
        data_elems(list.nodes).len() > 0,
{
    let i = choose|i: int|
        0 <= i < list.nodes.len() && (#[trigger] list.nodes[i]).state.has_value();
    if exists|i: int| 0 <= i < list.nodes.len() && (#[trigger] list.nodes[i]).state is NeedsWrite {
        let k = choose|k: int|
            0 <= k < list.nodes.len() && (#[trigger] list.nodes[k]).state is NeedsWrite;
        lemma_data_elems_some(list.nodes, k);
    } else {
        lemma_data_elems_some(list.nodes, i);
    }
}

/// One more element behind those that have been appended.
pub proof fn lemma_appended_push(
    before: Seq<ItemView>,
    after: Seq<ItemView>,
    elems: Seq<ElemView>,
    item: ItemView,
)
    requires
        appended(before, after, elems),
        item.elem is Some,
    ensures
        appended(before, after.push(item), elems.push(item.elem->0)),
        total_len(after.push(item).skip(before.len() as int)) == total_len(
            after.skip(before.len() as int),
        ) + item.len,
{
    let n = before.len() as int;
    assert(after.push(item).skip(n).drop_last() =~= after.skip(n));
    assert(after.push(item).skip(n).last() == item);
}

/// Where some of the elements have been pushed, and perhaps one more push has failed.
pub proof fn lemma_appended_in_part(
    before: Seq<ItemView>,
    mid: Seq<ItemView>,
    after: Seq<ItemView>,
    elems: Seq<ElemView>,
    all: Seq<ElemView>,
)
    requires
        appended(before, mid, elems),
        elems.is_prefix_of(all),
        after == mid || (elems.len() < all.len() && perhaps_pushed(
            mid,
            after,
            all[elems.len() as int],
        )),
    ensures
        appended_in_part(before, after, all),
{
    let k = elems.len() as int;
    assert(all.take(k) =~= elems);
    if perhaps_torn(mid, after) {
        assert(appended(before, mid, all.take(k)));
    } else {
        assert(all.take(k + 1) =~= elems.push(all[k]));
        assert(after =~= mid.push(after.last()));
        lemma_appended_push(before, mid, elems, after.last());
        assert(perhaps_torn(after, after));
    }
}

} // verus!
