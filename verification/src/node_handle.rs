//! What a list node is to its owner: attaching it, and the handle to its value.
//!
//! Attaching has two steps. [`StorageListNode::begin_attach`] links the node and asks for a
//! read; once the read is done, [`StorageListNode::finish_attach`] or
//! [`StorageListNode::finish_attach_with_default`] hands out the handle.
use crate::error::Error;
use crate::model::ListView;
use crate::storage_list::StorageList;
use crate::storage_node::{has_key, index_of, lemma_index_of, NodeView, State, VTable};
use core::marker::PhantomData;
use vstd::prelude::*;

verus! {

/// The list that a node belongs to
#[derive(Clone, Copy, Debug, PartialEq, Eq, Structural)]
pub enum TakenFor {
    /// The node is not attached to a list
    Nothing,
    /// The node is attached to the list with this id, and no handle exists
    Attached(usize),
    /// The node is attached to the list with this id, and a handle exists
    Taken(usize),
}

/// The error with which a node is refused by a list, if it is.
pub open spec fn attach_error<T, V>(
    taken_for: TakenFor,
    key: Seq<char>,
    list: ListView<T, V>,
) -> Option<Error> {
    match taken_for {
        TakenFor::Nothing => if has_key(list.nodes, key) {
            Some(Error::DuplicateKey)
        } else {
            None
        },
        TakenFor::Attached(id) => if id == list.id {
            None
        } else {
            Some(Error::NodeInOtherList)
        },
        TakenFor::Taken(id) => if id == list.id {
            Some(Error::AlreadyTaken)
        } else {
            Some(Error::NodeInOtherList)
        },
    }
}

/// The error with which a node stays attached, if it does.
pub open spec fn detach_error(taken_for: TakenFor, id: usize) -> Option<Error> {
    match taken_for {
        TakenFor::Nothing => None,
        TakenFor::Attached(other) => if other == id {
            None
        } else {
            Some(Error::NodeInOtherList)
        },
        TakenFor::Taken(other) => if other == id {
            Some(Error::AlreadyTaken)
        } else {
            Some(Error::NodeInOtherList)
        },
    }
}

/// A node belongs to one list and has one handle: while a handle exists, no list accepts the
/// node and none lets go of it; once the handle has been given back, the list that the node
/// belongs to does, and no other list. A node that belongs to no list can be detached, and is
/// accepted by each list that does not have its key.
pub proof fn law_a_node_has_one_list_and_one_handle<T, V>(
    taken_for: TakenFor,
    key: Seq<char>,
    list: ListView<T, V>,
)
    ensures
        taken_for is Taken ==> attach_error(taken_for, key, list) is Some && detach_error(
            taken_for,
            list.id,
        ) is Some,
        taken_for matches TakenFor::Attached(id) ==> {
            &&& attach_error(taken_for, key, list) is None <==> id == list.id
            &&& detach_error(taken_for, list.id) is None <==> id == list.id
        },
        taken_for is Nothing ==> {
            &&& attach_error(taken_for, key, list) is None <==> !has_key(list.nodes, key)
            &&& detach_error(taken_for, list.id) is None
        },
{
}

/// Represents the storage of a single `T`, linkable to a `StorageList`
///
/// Users will attach it to the [`StorageList`] to make it part of
/// the "connected configuration system", and receive a [`StorageListNodeHandle`].
pub struct StorageListNode<T, V> {
    key: String,
    vtable: V,
    taken_for_list: TakenFor,
    value: PhantomData<T>,
}

/// Handle for a `StorageListNode` that has been loaded and thus contains valid data
///
/// "end users" will interact with the `StorageListNodeHandle` to retrieve stored
/// configuration and store changes to the configuration they care about.
///
/// When it is no longer needed, it is given back with [`Self::release`].
pub struct StorageListNodeHandle<T, V> {
    key: String,
    list: usize,
    value: PhantomData<(T, V)>,
}

impl<T, V: VTable<T> + Copy> StorageListNode<T, V> {
    /// The key of the node.
    pub closed spec fn key(&self) -> Seq<char> {
        self.key@
    }

    /// How the value of the node is written and read.
    pub closed spec fn vtable(&self) -> V {
        self.vtable
    }

    /// The list that the node belongs to.
    pub closed spec fn taken_for(&self) -> TakenFor {
        self.taken_for_list
    }

    /// Where the node belongs to the list, the list has a node with its key.
    pub open spec fn linked(&self, list: ListView<T, V>) -> bool {
        self.taken_for() == TakenFor::Attached(list.id) || self.taken_for() == TakenFor::Taken(
            list.id,
        ) ==> has_key(list.nodes, self.key())
    }

    /// Make a new [`StorageListNode`], initially empty and unattached
    pub fn new(path: &str, vtable: V) -> (r: Self)
        ensures
            r.key() == path@,
            r.vtable() == vtable,
            r.taken_for() is Nothing,
    {
        StorageListNode {
            key: path.to_owned(),
            vtable,
            taken_for_list: TakenFor::Nothing,
            value: PhantomData,
        }
    }

    /// Attaches the node to a list, and asks for hydration.
    ///
    /// A node is eligible if EITHER it is attached to this list already, but no handle
    /// exists, OR if it is not attached to any list. Returns whether it was attached before.
    ///
    /// # Error
    ///
    /// * [`Error::DuplicateKey`] if another node with the same key is in the list
    /// * [`Error::AlreadyTaken`] if a handle exists for this node
    /// * [`Error::NodeInOtherList`] if the node is attached to another list
    pub fn begin_attach<const KEPT_RECORDS: usize>(
        &mut self,
        list: &mut StorageList<T, V, KEPT_RECORDS>,
    ) -> (r: Result<bool, Error>)
        requires
            old(list).wf(),
            old(self).linked(old(list)@),
        ensures
            final(list).wf(),
            old(list)@.nodes_lead_to(final(list)@),
            final(self).linked(final(list)@),
            final(self).key() == old(self).key(),
            final(self).vtable() == old(self).vtable(),
            match attach_error(old(self).taken_for(), old(self).key(), old(list)@) {
                Some(refusal) => r matches Err(e) && e == refusal,
                None => r == Ok::<bool, Error>(old(self).taken_for() is Attached),
            },
            match r {
                Ok(already_attached) => {
                    &&& final(self).taken_for() == TakenFor::Taken(old(list)@.id)
                    &&& final(list)@ == (ListView {
                        nodes: if already_attached {
                            old(list)@.nodes
                        } else {
                            seq![NodeView::fresh(old(self).key(), old(self).vtable())] + old(
                                list,
                            )@.nodes
                        },
                        needs_read: true,
                        ..old(list)@
                    })
                },
                Err(_) => {
                    &&& final(self).taken_for() == old(self).taken_for()
                    &&& final(list)@ == old(list)@
                },
            },
    {
        let id: usize = list.id();
        match self.taken_for_list {
            TakenFor::Nothing => {
                // Check if the key already exists in the list.
                if list.contains_key(self.key.as_str()) {
                    Err(Error::DuplicateKey)
                } else {
                    list.link(self.key.as_str(), self.vtable);
                    self.taken_for_list = TakenFor::Taken(id);
                    proof {
                        assert(list@.nodes[0].key == self.key());
                    }
                    Ok(false)
                }
            },
            TakenFor::Attached(other) => {
                if other == id {
                    self.taken_for_list = TakenFor::Taken(id);
                    // Let the read task know we MAY have work. This may not be true if we
                    // are re-attaching.
                    list.ask_read();
                    Ok(true)
                } else {
                    Err(Error::NodeInOtherList)
                }
            },
            TakenFor::Taken(other) => {
                if other == id {
                    Err(Error::AlreadyTaken)
                } else {
                    Err(Error::NodeInOtherList)
                }
            },
        }
    }

    /// Whether a node that has been attached has been read, with data for it or without.
    ///
    /// A node that has been read stays so while it is attached.
    pub fn has_been_read<const KEPT_RECORDS: usize>(
        &self,
        list: &StorageList<T, V, KEPT_RECORDS>,
    ) -> (r: bool)
        requires
            list.wf(),
            self.linked(list@),
            self.taken_for() == TakenFor::Taken(list@.id),
        ensures
            r == !(list@.node(self.key()).state is Initial),
    {
        match list.state_of(self.key.as_str()) {
            State::Initial => false,
            _ => true,
        }
    }

    /// Hands out the handle of a node that has been attached, once it has been hydrated.
    ///
    /// If the value was not found in flash, the default value provided by the closure `f` is
    /// used. Returns `None` while the node still waits for the read.
    pub fn finish_attach_with_default<F: FnOnce() -> T, const KEPT_RECORDS: usize>(
        &self,
        list: &mut StorageList<T, V, KEPT_RECORDS>,
        f: F,
    ) -> (r: Option<StorageListNodeHandle<T, V>>)
        requires
            old(list).wf(),
            self.linked(old(list)@),
            self.taken_for() == TakenFor::Taken(old(list)@.id),
            call_requires(f, ()),
        ensures
            final(list).wf(),
            old(list)@.nodes_lead_to(final(list)@),
            self.linked(final(list)@),
            r is None <==> old(list)@.node(self.key()).state is Initial,
            r matches Some(handle) ==> handle.of(self) && handle.ready(final(list)@),
            if old(list)@.node(self.key()).state is NonResident {
                exists|t: T|
                    #![trigger call_ensures(f, (), t)]
                    call_ensures(f, (), t) && final(list)@ == old(list)@.attached(self.key(), t)
            } else {
                final(list)@ == old(list)@
            },
    {
        let key = self.key.as_str();
        let ghost at = index_of(list@.nodes, self.key());
        match list.state_of(key) {
            State::Initial => {
                return None;
            },
            // Not found in flash, init with default value.
            State::NonResident => {
                let t: T = f();
                list.replace(key, t);
                proof {
                    list.lemma_wf();
                    assert(list@.nodes[at].key == self.key());
                    lemma_index_of(list@.nodes, self.key(), at);
                }
            },
            // If this isn't our first attach, we might see already pending data
            State::NeedsWrite => {},
            // This is the usual case: key found in flash and node hydrated
            State::ValidNoWriteNeeded => {},
        }
        Some(
            StorageListNodeHandle { key: key.to_owned(), list: list.id(), value: PhantomData },
        )
    }

    /// Hands out the handle of a node that has been attached, once it has been hydrated.
    ///
    /// This is [`Self::finish_attach_with_default`] with `T`'s `Default::default()` value.
    pub fn finish_attach<const KEPT_RECORDS: usize>(
        &self,
        list: &mut StorageList<T, V, KEPT_RECORDS>,
    ) -> (r: Option<StorageListNodeHandle<T, V>>) where T: Default
        requires
            old(list).wf(),
            self.linked(old(list)@),
            self.taken_for() == TakenFor::Taken(old(list)@.id),
            call_requires(T::default, ()),
        ensures
            final(list).wf(),
            old(list)@.nodes_lead_to(final(list)@),
            self.linked(final(list)@),
            r is None <==> old(list)@.node(self.key()).state is Initial,
            r matches Some(handle) ==> handle.of(self) && handle.ready(final(list)@),
            if old(list)@.node(self.key()).state is NonResident {
                exists|t: T|
                    #![trigger call_ensures(T::default, (), t)]
                    call_ensures(T::default, (), t) && final(list)@ == old(list)@.attached(
                        self.key(),
                        t,
                    )
            } else {
                final(list)@ == old(list)@
            },
    {
        self.finish_attach_with_default(list, T::default)
    }

    /// Detach a node from a given list
    ///
    /// This is generally never needed: in most cases nodes live on the same StorageList
    /// for their entire lifetime.
    ///
    /// This function returns an error if:
    ///
    /// * a [`StorageListNodeHandle`] exists for this node
    /// * the `list` does not match the [`StorageList`] used for the last attach
    ///
    /// This function succeeds if:
    ///
    /// * This node is not currently (or was never) attached to a list
    /// * No [`StorageListNodeHandle`] is live AND the `list` matches the currently attached list
    ///
    /// On success, the node is unlinked, and if it contains any data, it is dropped.
    pub fn detach<const KEPT_RECORDS: usize>(
        &mut self,
        list: &mut StorageList<T, V, KEPT_RECORDS>,
    ) -> (r: Result<(), Error>)
        requires
            old(list).wf(),
            old(self).linked(old(list)@),
        ensures
            final(list).wf(),
            old(list)@.nodes_lead_to(final(list)@),
            final(self).linked(final(list)@),
            final(self).key() == old(self).key(),
            final(self).vtable() == old(self).vtable(),
            match detach_error(old(self).taken_for(), old(list)@.id) {
                Some(refusal) => r matches Err(e) && e == refusal,
                None => {
                    &&& r is Ok
                    &&& final(self).taken_for() is Nothing
                    &&& final(list)@ == (if old(self).taken_for() is Nothing {
                        old(list)@
                    } else {
                        ListView {
                            nodes: old(list)@.nodes.remove(
                                index_of(old(list)@.nodes, old(self).key()),
                            ),
                            ..old(list)@
                        }
                    })
                },
            },
            r is Err ==> final(list)@ == old(list)@ && final(self).taken_for() == old(
                self,
            ).taken_for(),
    {
        let id: usize = list.id();
        match self.taken_for_list {
            TakenFor::Nothing => Ok(()),
            TakenFor::Attached(other) => {
                if other == id {
                    list.unlink(self.key.as_str());
                    self.taken_for_list = TakenFor::Nothing;
                    Ok(())
                } else {
                    Err(Error::NodeInOtherList)
                }
            },
            TakenFor::Taken(other) => {
                if other == id {
                    Err(Error::AlreadyTaken)
                } else {
                    Err(Error::NodeInOtherList)
                }
            },
        }
    }
}

impl<T, V: VTable<T> + Copy> StorageListNodeHandle<T, V> {
    /// The key of the node.
    pub closed spec fn node_key(&self) -> Seq<char> {
        self.key@
    }

    /// The list that the node belongs to.
    pub closed spec fn list_id(&self) -> usize {
        self.list
    }

    /// Whether this is the handle of the node.
    pub open spec fn of(&self, node: &StorageListNode<T, V>) -> bool {
        self.node_key() == node.key() && node.taken_for() == TakenFor::Taken(self.list_id())
    }

    /// Whether the list is the one that the node belongs to.
    pub open spec fn belongs(&self, list: ListView<T, V>) -> bool {
        self.list_id() == list.id && has_key(list.nodes, self.node_key())
    }

    /// Whether the node holds a value.
    pub open spec fn ready(&self, list: ListView<T, V>) -> bool {
        self.belongs(list) && list.node(self.node_key()).state.has_value()
    }

    /// Obtain the key of a node
    pub fn key(&self) -> (r: &str)
        ensures
            r@ == self.node_key(),
    {
        self.key.as_str()
    }

    /// This is a `load` function that copies out the data
    pub fn load<const KEPT_RECORDS: usize>(&self, list: &StorageList<T, V, KEPT_RECORDS>) -> (r:
        T) where T: Clone
        requires
            list.wf(),
            self.ready(list@),
        ensures
            cloned(list@.node(self.node_key()).value->0, r),
    {
        list.value_of(self.key.as_str()).clone()
    }

    /// Write data to the buffer, and mark the buffer as "needs to be flushed".
    pub fn write<const KEPT_RECORDS: usize>(
        &mut self,
        list: &mut StorageList<T, V, KEPT_RECORDS>,
        t: &T,
    ) -> (r: Result<(), Error>) where T: Clone
        requires
            old(list).wf(),
            old(self).belongs(old(list)@),
        ensures
            final(list).wf(),
            old(list)@.nodes_lead_to(final(list)@),
            final(self).node_key() == old(self).node_key(),
            final(self).list_id() == old(self).list_id(),
            // what is written is what is loaded next, and needs a write
            r is Ok ==> (final(list)@.node(old(self).node_key()).value matches Some(c) && cloned(
                *t,
                c,
            )) && final(list)@.node(old(self).node_key()).state is NeedsWrite,
            ({
                let state = old(list)@.node(old(self).node_key()).state;
                match r {
                    Ok(()) => {
                        &&& state.has_value()
                        &&& final(self).ready(final(list)@)
                        &&& exists|c: T|
                            #[trigger] cloned(*t, c) && final(list)@ == (ListView {
                                needs_write: true,
                                ..old(list)@.replaced(old(self).node_key(), c)
                            })
                    },
                    Err(e) => {
                        &&& !state.has_value()
                        &&& e matches Error::InvalidState(key, s) && key@ == old(
                            self,
                        ).node_key() && s == state
                        &&& final(list)@ == old(list)@
                    },
                }
            }),
    {
        let key = self.key.as_str();
        let ghost at = index_of(list@.nodes, self.node_key());
        let state: State = list.state_of(key);
        match state {
            State::Initial | State::NonResident => {
                return Err(Error::InvalidState(key.to_owned(), state));
            },
            State::ValidNoWriteNeeded | State::NeedsWrite => {},
        }
        let copy: T = t.clone();
        assert(cloned(*t, copy));
        list.replace(key, copy);
        proof {
            list.lemma_wf();
            assert(list@.nodes[at].key == self.node_key());
            lemma_index_of(list@.nodes, self.node_key(), at);
        }
        // Let the write task know we have work
        list.ask_write();
        Ok(())
    }

    /// Give the handle back, so that the node can be attached again or detached.
    pub fn release(self, node: &mut StorageListNode<T, V>)
        requires
            self.of(old(node)),
        ensures
            final(node).taken_for() == TakenFor::Attached(self.list_id()),
            final(node).key() == old(node).key(),
            final(node).vtable() == old(node).vtable(),
    {
        node.taken_for_list = TakenFor::Attached(self.list);
    }
}

/// A node is refused for the reason that there is: a handle exists, it is in another list, or
/// another node of the list has its key.
pub proof fn law_why_a_node_is_refused<T, V>(
    key: Seq<char>,
    list: ListView<T, V>,
    i: int,
    other: usize,
)
    requires
        other != list.id,
    ensures
        attach_error(TakenFor::Taken(list.id), key, list) == Some(Error::AlreadyTaken),
        attach_error(TakenFor::Taken(other), key, list) == Some(Error::NodeInOtherList),
        attach_error(TakenFor::Attached(other), key, list) == Some(Error::NodeInOtherList),
        attach_error(TakenFor::Attached(list.id), key, list) is None,
        0 <= i < list.nodes.len() && list.nodes[i].key == key ==> attach_error(
            TakenFor::Nothing,
            key,
            list,
        ) == Some(Error::DuplicateKey),
        (forall|j: int| 0 <= j < list.nodes.len() ==> (#[trigger] list.nodes[j]).key != key)
            ==> attach_error(TakenFor::Nothing, key, list) is None,
        detach_error(TakenFor::Taken(list.id), list.id) == Some(Error::AlreadyTaken),
        detach_error(TakenFor::Taken(other), list.id) == Some(Error::NodeInOtherList),
        detach_error(TakenFor::Attached(other), list.id) == Some(Error::NodeInOtherList),
        detach_error(TakenFor::Attached(list.id), list.id) is None,
        detach_error(TakenFor::Nothing, list.id) is None,
{
}

/// A handle can be used on the list of its node as soon as, and only where, the node holds a
/// value there.
pub proof fn law_when_a_handle_is_ready<T, V: VTable<T> + Copy>(
    handle: &StorageListNodeHandle<T, V>,
    list: ListView<T, V>,
    i: int,
)
    requires
        list.wf(),
        0 <= i < list.nodes.len(),
        list.nodes[i].key == handle.node_key(),
    ensures
        handle.belongs(list) <==> handle.list_id() == list.id,
        handle.ready(list) <==> handle.list_id() == list.id && list.nodes[i].value is Some,
{
    lemma_index_of(list.nodes, handle.node_key(), i);
    assert(list.nodes[i].wf());
}

/// A node that belongs to no list, or to another one, asks nothing of the list. One that belongs
/// to the list has to be in it.
pub proof fn law_when_a_node_is_linked<T, V: VTable<T> + Copy>(
    node: &StorageListNode<T, V>,
    list: ListView<T, V>,
    i: int,
)
    ensures
        node.taken_for() == TakenFor::Nothing ==> node.linked(list),
        node.taken_for() != TakenFor::Attached(list.id) && node.taken_for() != TakenFor::Taken(
            list.id,
        ) ==> node.linked(list),
        0 <= i < list.nodes.len() && list.nodes[i].key == node.key() ==> node.linked(list),
{
}

} // verus!
