//! Storage backends.
//!
//! A backend is a queue of items, from the oldest to the newest. Most items are elements;
//! an item may also be unreadable, and is then still there to be invalidated. The contracts
//! speak of the items that an iteration yields, [`NdlDataStorage::items`].
//!
//! The specification functions of the traits have a body so that a backend in plain Rust can
//! leave them out. It says nothing: a verified backend gives its own.
use crate::cbor;
use crate::elem::{Elem, ElemView};
use crate::storage_node::VTable;
use vstd::prelude::*;

verus! {

/// What an iteration yields of one item.
pub struct ItemView {
    /// The element that the item stands for, unless it cannot be decoded.
    pub elem: Option<ElemView>,
    /// The length in bytes that the item takes in storage, including any overhead.
    pub len: nat,
}

/// The bytes that items take in storage together.
pub open spec fn total_len(items: Seq<ItemView>) -> nat
    decreases items.len(),
{
    if items.len() == 0 {
        0
    } else {
        total_len(items.drop_last()) + items.last().len
    }
}

/// A count of bytes, held at the largest value that a `usize` can have.
pub open spec fn counted(n: nat) -> usize {
    if n <= usize::MAX {
        n as usize
    } else {
        usize::MAX
    }
}

/// Adds to a count of bytes.
pub fn count(total: usize, more: usize) -> (r: usize)
    ensures
        forall|n: nat| total == counted(n) ==> r == #[trigger] counted(n + more as nat),
        r == counted((total + more) as nat),
{
    total.saturating_add(more)
}

/// Whether `after` is `before` or `before` with one more item at its end.
pub open spec fn at_most_one_more(before: Seq<ItemView>, after: Seq<ItemView>) -> bool {
    after == before || (after.len() == before.len() + 1 && after.drop_last() == before)
}

/// Whether `after` is `before`, perhaps with one item at its end that does not decode.
pub open spec fn perhaps_torn(before: Seq<ItemView>, after: Seq<ItemView>) -> bool {
    after == before || (after.len() == before.len() + 1 && after.drop_last() == before
        && after.last().elem is None)
}

/// Whether `after` is `before`, perhaps with the element at its end, or with an item that does
/// not decode.
pub open spec fn perhaps_pushed(
    before: Seq<ItemView>,
    after: Seq<ItemView>,
    elem: ElemView,
) -> bool {
    perhaps_torn(before, after) || (after.len() == before.len() + 1 && after.drop_last() == before
        && after.last().elem == Some(elem))
}

/// How accesses to a storage can fail.
#[verifier::reject_recursive_types(E)]
pub struct Faults<E> {
    /// The errors with which an iteration can fail.
    pub read: Set<E>,
    /// The errors with which a push or an invalidation can fail.
    pub write: Set<E>,
    /// The error with which every access fails, where all do.
    pub always: Option<E>,
}

impl<E> Faults<E> {
    /// No access fails.
    pub open spec fn none() -> Self {
        Faults { read: Set::empty(), write: Set::empty(), always: None }
    }

    /// Whether no access fails.
    pub open spec fn never(self) -> bool {
        self.read == Set::<E>::empty() && self.write == Set::<E>::empty()
    }
}

/// A single item yielded from an iteration
pub trait NdlElemIterNode: Sized {
    /// What there is of the item.
    open spec fn item(&self) -> ItemView {
        arbitrary()
    }

    /// Returns the present element.
    ///
    /// If the contained item is NOT a valid element, `None` is returned here.
    /// This means that the storage did not consider this item invalid, however we
    /// are unable to decode it as a valid [`Elem`].
    fn data(&self) -> (r: Option<Elem<'_>>)
        ensures
            match r {
                Some(elem) => self.item().elem == Some(elem@),
                None => self.item().elem is None,
            },
    ;

    /// The length (in bytes) of the element in storage, including any overhead
    ///
    /// This should return the length even if [`Self::data()`] returns `None`.
    fn len(&self) -> (n: usize)
        ensures
            n == self.item().len,
    ;
}

/// A storage backend representing a FIFO queue of elements
///
/// An iterator is a position in the queue. It does not hold the storage: the storage is
/// handed to each step.
pub trait NdlDataStorage: Sized {
    /// A position in the queue
    type Iter;

    /// Items yielded by an iteration
    type Item: NdlElemIterNode;

    /// The error returned when an access fails
    type Error;

    /// The items that an iteration yields, from the oldest to the newest.
    open spec fn items(&self) -> Seq<ItemView> {
        arbitrary()
    }

    /// The index in [`Self::items`] of the item that the iterator yields next.
    open spec fn position(iter: &Self::Iter) -> nat {
        arbitrary()
    }

    /// How accesses to this storage can fail.
    open spec fn faults(&self) -> Faults<Self::Error> {
        arbitrary()
    }

    /// Whether storages of this type hold an element as it was pushed, where the push
    /// succeeds, and no other element, where it fails. A flash with a bad block does not, nor
    /// does a storage that ignores what is pushed to it.
    open spec fn faithful() -> bool {
        arbitrary()
    }

    /// Returns an iterator over all elements, back to front.
    fn iter_elems(&mut self) -> (r: Result<Self::Iter, Self::Error>)
        ensures
            final(self).items() == old(self).items(),
            final(self).faults() == old(self).faults(),
            old(self).items().len() <= usize::MAX,
            match r {
                Ok(iter) => Self::position(&iter) == 0,
                Err(e) => old(self).faults().read.contains(e),
            },
            old(self).faults().always matches Some(fault) ==> (r matches Err(e) && e == fault),
    ;

    /// Obtain the next item, in oldest-to-newest order.
    ///
    /// The item returned MAY not be a valid Element, however access is still provided
    /// to allow invalidation of this node when relevant.
    ///
    /// This method returns:
    ///
    /// - `Ok(Some(item))`: There is an item here, but it may or may not contain a valid
    ///   Elem when [`NdlElemIterNode::data()`] is called.
    /// - `Ok(None)`: The end of the iterator has been reached successfully
    /// - `Err(e)`: An error occurred while reading from the storage
    fn next(&mut self, iter: &mut Self::Iter) -> (r: Result<Option<Self::Item>, Self::Error>)
        ensures
            final(self).items() == old(self).items(),
            final(self).faults() == old(self).faults(),
            match r {
                Ok(Some(item)) => {
                    &&& Self::position(old(iter)) < old(self).items().len()
                    &&& item.item() == old(self).items()[Self::position(old(iter)) as int]
                    &&& Self::position(final(iter)) == Self::position(old(iter)) + 1
                },
                Ok(None) => Self::position(old(iter)) >= old(self).items().len(),
                Err(e) => old(self).faults().read.contains(e),
            },
            old(self).faults().always matches Some(fault) ==> (r matches Err(e) && e == fault),
    ;

    /// Insert an element at the FRONT of the list.
    ///
    /// On success, returns the size (in bytes) of the pushed element in storage. On failure,
    /// the element may or may not have been written. Nothing that was stored before is lost,
    /// whether the push succeeds or not.
    fn push(&mut self, data: &Elem<'_>) -> (r: Result<usize, Self::Error>)
        ensures
            final(self).faults() == old(self).faults(),
            r matches Err(e) ==> old(self).faults().write.contains(e),
            old(self).faults().always matches Some(fault) ==> (r matches Err(e) && e == fault),
            at_most_one_more(old(self).items(), final(self).items()),
            r matches Ok(used) ==> (Self::faithful() ==> final(self).items() == old(
                self,
            ).items().push((ItemView { elem: Some(data@), len: used as nat }))),
            r is Err && Self::faithful() ==> perhaps_pushed(
                old(self).items(),
                final(self).items(),
                data@,
            ),
    ;

    /// Invalidate the item that the iterator has just yielded.
    ///
    /// If this operation succeeds, the item is never yielded again. If it fails, the item
    /// may or may not have been invalidated. No other item is lost either way.
    fn invalidate(&mut self, iter: &mut Self::Iter, item: Self::Item) -> (r: Result<
        (),
        Self::Error,
    >)
        requires
            0 < Self::position(old(iter)) <= old(self).items().len(),
            item.item() == old(self).items()[Self::position(old(iter)) - 1],
        ensures
            final(self).faults() == old(self).faults(),
            r matches Err(e) ==> old(self).faults().write.contains(e),
            old(self).faults().always matches Some(fault) ==> (r matches Err(e) && e == fault),
            match r {
                Ok(()) => {
                    &&& final(self).items() == old(self).items().remove(
                        Self::position(old(iter)) - 1,
                    )
                    &&& Self::position(final(iter)) == Self::position(old(iter)) - 1
                },
                Err(_) => final(self).items() == old(self).items() || final(self).items() == old(
                    self,
                ).items().remove(Self::position(old(iter)) - 1),
            },
    ;

    /// The maximum size of an `Elem` that may be stored in the list in bytes.
    open spec fn max_size() -> nat {
        arbitrary()
    }

    /// Return the maximum size of an `Elem` that may be stored in the list in bytes.
    ///
    /// This includes a one byte element header, the CBOR-serialized key, and the
    /// CBOR-serialized value.
    fn max_elem_size() -> (r: usize)
        ensures
            r == Self::max_size(),
    ;

    /// Checks whether the size of the `key` and `node` fit into the maximium
    /// element size of this `NdlDataStorage`.
    ///
    /// This function can be used to check if writing the node to flash is
    /// possible before the node is serialized at a later stage.
    fn check_node_size<T, V: VTable<T>>(key: &str, vtable: &V, node: &T) -> (r: bool)
        ensures
            vtable.encoded(*node) matches Some(bytes) ==> r == (1 + cbor::text(key@).len()
                + bytes.len() <= Self::max_size()),
    {
        node_fits(key, vtable, node, Self::max_elem_size())
    }
}

/// Checks whether the size of the `key` and `node` fit into an element of `max` bytes.
///
/// For a node that cannot be serialized, the answer means nothing.
pub fn node_fits<T, V: VTable<T>>(key: &str, vtable: &V, node: &T, max: usize) -> (r: bool)
    ensures
        vtable.encoded(*node) matches Some(bytes) ==> r == (1 + cbor::text(key@).len()
            + bytes.len() <= max),
{
    let key_len: usize = cbor::text_len(key);
    let node_len: usize = vtable.encoded_len(node);
    key_len < max && node_len <= max - 1 - key_len
}

/// Adding two counts is counting the sum.
pub proof fn lemma_counted_sum(a: nat, b: nat)
    ensures
        counted(a + counted(b) as nat) == counted(a + b),
{
}

/// One more item takes its length more.
pub proof fn lemma_total_len_push(items: Seq<ItemView>, item: ItemView)
    ensures
        total_len(items.push(item)) == total_len(items) + item.len,
{
    assert(items.push(item).drop_last() =~= items);
}

/// A storage whose accesses never fail has no errors to fail with.
pub proof fn law_what_never_fails<E>(faults: Faults<E>)
    ensures
        faults.never() <==> (forall|e: E| !(#[trigger] faults.read.contains(e))) && (forall|e: E|
            !(#[trigger] faults.write.contains(e))),
        Faults::<E>::none().never(),
{
    if (forall|e: E| !(#[trigger] faults.read.contains(e))) && (forall|e: E|
        !(#[trigger] faults.write.contains(e))) {
        assert(faults.read =~= Set::empty());
        assert(faults.write =~= Set::empty());
    }
}

} // verus!
