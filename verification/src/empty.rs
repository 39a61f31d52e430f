//! An implementation of an empty flash
//!
//! On reads, it is always empty, any writes to it are ignored.
use crate::elem::Elem;
use crate::storage::{Faults, ItemView, NdlDataStorage, NdlElemIterNode};
use core::convert::Infallible;
use vstd::prelude::*;

verus! {

/// A Flash that always reads as empty and ignores all writes
///
/// It can be used for testing and evaluation.
pub struct AlwaysEmptyFlash;

/// The only position in an [`AlwaysEmptyFlash`].
pub struct AlwaysEmptyIter;

/// An implementation of [NdlElemIterNode] that can never be constructed.
///
/// This is useful for testing with [AlwaysEmptyFlash].
pub struct NeverNode {
    never: Infallible,
}

impl NeverNode {
    /// There are no values.
    #[verifier::type_invariant]
    spec fn inv(self) -> bool {
        false
    }
}

impl NdlElemIterNode for NeverNode {
    open spec fn item(&self) -> ItemView {
        arbitrary()
    }

    fn data(&self) -> (r: Option<Elem<'_>>) {
        proof {
            use_type_invariant(self);
        }
        None
    }

    fn len(&self) -> (n: usize) {
        proof {
            use_type_invariant(self);
        }
        0
    }
}

impl NdlDataStorage for AlwaysEmptyFlash {
    type Iter = AlwaysEmptyIter;

    type Item = NeverNode;

    type Error = Infallible;

    open spec fn items(&self) -> Seq<ItemView> {
        Seq::empty()
    }

    open spec fn position(iter: &AlwaysEmptyIter) -> nat {
        0
    }

    open spec fn faults(&self) -> Faults<Infallible> {
        Faults::none()
    }

    open spec fn faithful() -> bool {
        false
    }

    fn iter_elems(&mut self) -> (r: Result<AlwaysEmptyIter, Infallible>) {
        Ok(AlwaysEmptyIter)
    }

    fn next(&mut self, iter: &mut AlwaysEmptyIter) -> (r: Result<Option<NeverNode>, Infallible>) {
        Ok(None)
    }

    fn push(&mut self, data: &Elem<'_>) -> (r: Result<usize, Infallible>)
        ensures
            r == Ok::<usize, Infallible>(0),
    {
        Ok(0)
    }

    fn invalidate(&mut self, iter: &mut AlwaysEmptyIter, item: NeverNode) -> (r: Result<(), Infallible>) {
        proof {
            use_type_invariant(&item);
        }
        Ok(())
    }

    open spec fn max_size() -> nat {
        0
    }

    fn max_elem_size() -> (r: usize) {
        0
    }
}

} // verus!
