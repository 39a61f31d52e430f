//! Test Storage: in-memory storage for testing and development
use crate::elem::{Elem, ElemView, SeqNo, SerData};
use crate::flash::framed;
use crate::storage::{Faults, ItemView, NdlDataStorage, NdlElemIterNode};
use vstd::prelude::*;
use vstd::slice::slice_to_vec;

verus! {

/// An element that owns its data
#[derive(Debug, PartialEq)]
pub enum TestElem {
    /// Start element
    Start { seq_no: SeqNo },
    /// Data element: header, key and value
    Data { data: Vec<u8> },
    /// End element
    End { seq_no: SeqNo, calc_crc: u32 },
}

impl TestElem {
    /// The element, unless it is a data element without even a header.
    pub open spec fn view(&self) -> Option<ElemView> {
        match self {
            TestElem::Start { seq_no } => Some(ElemView::Start { seq: seq_no@ }),
            TestElem::Data { data } => if data@.len() > 0 {
                Some(ElemView::Data { bytes: data@ })
            } else {
                None
            },
            TestElem::End { seq_no, calc_crc } => Some(
                ElemView::End { seq: seq_no@, crc: *calc_crc },
            ),
        }
    }

    /// The number of bytes that stand for the element.
    pub open spec fn size(&self) -> nat {
        match self {
            TestElem::Start { .. } => 5,
            TestElem::Data { data } => data@.len(),
            TestElem::End { .. } => 9,
        }
    }

    /// The owned form of an element.
    pub fn from_elem(value: &Elem<'_>) -> (r: Self)
        ensures
            r@ == Some(value@),
    {
        match value {
            Elem::Start { seq_no } => TestElem::Start { seq_no: *seq_no },
            Elem::Data { data } => TestElem::Data { data: slice_to_vec(data.hdr_key_val()) },
            Elem::End { seq_no, calc_crc } => TestElem::End {
                seq_no: *seq_no,
                calc_crc: *calc_crc,
            },
        }
    }

    /// A copy of the element.
    fn copy(&self) -> (r: Self)
        ensures
            r@ == self@,
            r.size() == self.size(),
    {
        match self {
            TestElem::Start { seq_no } => TestElem::Start { seq_no: *seq_no },
            TestElem::Data { data } => TestElem::Data { data: slice_to_vec(data.as_slice()) },
            TestElem::End { seq_no, calc_crc } => TestElem::End {
                seq_no: *seq_no,
                calc_crc: *calc_crc,
            },
        }
    }
}

/// An item of a [`TestStorage`], with the number of the push that stored it
#[derive(Debug, PartialEq)]
pub struct TestItem {
    /// Counts the pushes
    pub ctr: u64,
    /// The element, or `None` for an item that does not decode
    pub elem: Option<TestElem>,
}

impl TestItem {
    /// What an iteration yields of the item.
    pub open spec fn view(&self) -> ItemView {
        match self.elem {
            Some(elem) => ItemView { elem: elem@, len: elem.size() },
            None => ItemView { elem: None, len: 0 },
        }
    }

    /// A copy of the item.
    fn copy(&self) -> (r: Self)
        ensures
            r@ == self@,
            r.ctr == self.ctr,
    {
        let elem = match &self.elem {
            Some(elem) => Some(elem.copy()),
            None => None,
        };
        TestItem { ctr: self.ctr, elem }
    }
}

/// The error of a [`TestStorage`] that has been told to fail
#[derive(Clone, Copy, Debug, PartialEq, Eq, Structural)]
pub enum TestStorageError {
    /// A read that was made to fail
    FakeBadRead,
}

/// A queue of elements in memory
pub struct TestStorage {
    /// The number of the next push
    pub ctr: u64,
    /// The items, from the oldest to the newest
    pub items: Vec<TestItem>,
    /// Where there is an error here, every access fails with it
    pub forced_error: Option<TestStorageError>,
}

impl Default for TestStorage {
    fn default() -> (r: Self)
        ensures
            r.ctr == 0,
            r.items@.len() == 0,
            r.forced_error is None,
            r.items() == Seq::<ItemView>::empty(),
    {
        let r = TestStorage { ctr: 0, items: Vec::new(), forced_error: None };
        assert(r.items() =~= Seq::<ItemView>::empty());
        r
    }
}

/// The number of the push after the one with the given number. After the last number comes 0.
pub open spec fn next_number(ctr: u64) -> u64 {
    if ctr == u64::MAX {
        0
    } else {
        (ctr + 1) as u64
    }
}

impl TestStorage {
    /// Takes the number of the next push.
    pub fn next_ctr(&mut self) -> (ctr: u64)
        ensures
            ctr == old(self).ctr,
            final(self).ctr == next_number(ctr),
            final(self).items == old(self).items,
            final(self).forced_error == old(self).forced_error,
    {
        let ctr: u64 = self.ctr;
        self.ctr = ctr.wrapping_add(1);
        ctr
    }
}

/// A position in a [`TestStorage`]
pub struct TestStorageIter {
    pos: usize,
}

impl TestStorageIter {
    /// The index of the next item.
    pub closed spec fn view(&self) -> nat {
        self.pos as nat
    }
}

/// An item yielded from a [`TestStorage`]
pub struct TestStorageItemNode {
    item: TestItem,
}

impl NdlElemIterNode for TestStorageItemNode {
    closed spec fn item(&self) -> ItemView {
        self.item@
    }

    fn data(&self) -> (r: Option<Elem<'_>>) {
        match &self.item.elem {
            Some(TestElem::Start { seq_no }) => Some(Elem::Start { seq_no: *seq_no }),
            Some(TestElem::Data { data }) => match SerData::from_existing(data.as_slice()) {
                Some(data) => Some(Elem::Data { data }),
                None => None,
            },
            Some(TestElem::End { seq_no, calc_crc }) => Some(
                Elem::End { seq_no: *seq_no, calc_crc: *calc_crc },
            ),
            None => None,
        }
    }

    fn len(&self) -> (n: usize) {
        match &self.item.elem {
            Some(TestElem::Start { .. }) => 5,
            Some(TestElem::Data { data }) => data.len(),
            Some(TestElem::End { .. }) => 9,
            None => 0,
        }
    }
}

impl NdlDataStorage for TestStorage {
    type Iter = TestStorageIter;

    type Item = TestStorageItemNode;

    type Error = TestStorageError;

    open spec fn items(&self) -> Seq<ItemView> {
        self.items@.map_values(|item: TestItem| item@)
    }

    open spec fn position(iter: &TestStorageIter) -> nat {
        iter@
    }

    open spec fn faults(&self) -> Faults<TestStorageError> {
        match self.forced_error {
            Some(e) => Faults { read: set![e], write: set![e], always: Some(e) },
            None => Faults::none(),
        }
    }

    open spec fn faithful() -> bool {
        true
    }

    fn iter_elems(&mut self) -> (r: Result<TestStorageIter, TestStorageError>)
        ensures
            final(self).forced_error == old(self).forced_error,
            final(self).items == old(self).items,
            final(self).ctr == old(self).ctr,
            match old(self).forced_error {
                Some(forced) => r matches Err(e) && e == forced,
                None => r is Ok,
            },
    {
        assert(self.items().len() == self.items.len());
        match self.forced_error {
            Some(e) => Err(e),
            None => Ok(TestStorageIter { pos: 0 }),
        }
    }

    fn next(&mut self, iter: &mut TestStorageIter) -> (r: Result<
        Option<TestStorageItemNode>,
        TestStorageError,
    >)
        ensures
            final(self).forced_error == old(self).forced_error,
            final(self).items == old(self).items,
            final(self).ctr == old(self).ctr,
            match old(self).forced_error {
                Some(forced) => r matches Err(e) && e == forced,
                None => r is Ok,
            },
    {
        match self.forced_error {
            Some(e) => Err(e),
            None => {
                if iter.pos < self.items.len() {
                    let item = self.items[iter.pos].copy();
                    iter.pos = iter.pos + 1;
                    Ok(Some(TestStorageItemNode { item }))
                } else {
                    Ok(None)
                }
            },
        }
    }

    fn push(&mut self, data: &Elem<'_>) -> (r: Result<usize, TestStorageError>)
        ensures
            final(self).forced_error == old(self).forced_error,
            match old(self).forced_error {
                Some(forced) => {
                    &&& r matches Err(e) && e == forced
                    &&& final(self).items == old(self).items
                    &&& final(self).ctr == old(self).ctr
                },
                None => {
                    &&& r matches Ok(used)
                    &&& final(self).ctr == next_number(old(self).ctr)
                    &&& final(self).items@.len() == old(self).items@.len() + 1
                    &&& final(self).items@.drop_last() == old(self).items@
                    &&& final(self).items@.last().ctr == old(self).ctr
                    &&& final(self).items@.last()@ == (ItemView {
                        elem: Some(data@),
                        len: used as nat,
                    })
                },
            },
    {
        match self.forced_error {
            Some(e) => Err(e),
            None => {
                let ctr: u64 = self.next_ctr();
                let node = TestStorageItemNode {
                    item: TestItem { ctr, elem: Some(TestElem::from_elem(data)) },
                };
                let used: usize = node.len();
                self.items.push(node.item);
                assert(self.items@.drop_last() =~= old(self).items@);
                assert(self.items() =~= old(self).items().push(
                    (ItemView { elem: Some(data@), len: used as nat }),
                ));
                assert(self.items().drop_last() =~= old(self).items());
                Ok(used)
            },
        }
    }

    fn invalidate(&mut self, iter: &mut TestStorageIter, item: TestStorageItemNode) -> (r: Result<
        (),
        TestStorageError,
    >)
        ensures
            final(self).forced_error == old(self).forced_error,
            final(self).ctr == old(self).ctr,
            match old(self).forced_error {
                Some(forced) => {
                    &&& r matches Err(e) && e == forced
                    &&& final(self).items == old(self).items
                },
                None => {
                    &&& r is Ok
                    &&& final(self).items@ == old(self).items@.remove(old(iter)@ - 1)
                },
            },
    {
        match self.forced_error {
            Some(e) => Err(e),
            None => {
                let at: usize = iter.pos - 1;
                self.items.remove(at);
                iter.pos = at;
                assert(self.items() =~= old(self).items().remove(at as int));
                Ok(())
            },
        }
    }

    open spec fn max_size() -> nat {
        4096
    }

    fn max_elem_size() -> (r: usize) {
        4096
    }
}

/// An iteration over a queue in memory yields its items one for one, and holds what is pushed.
/// It fails exactly while an error is forced, and then with that error.
pub proof fn law_a_queue_in_memory(storage: &TestStorage, i: int, e: TestStorageError)
    ensures
        storage.items().len() == storage.items@.len(),
        0 <= i < storage.items@.len() ==> match storage.items@[i].elem {
            Some(TestElem::Start { seq_no }) => storage.items()[i].elem == Some(
                ElemView::Start { seq: seq_no@ },
            ),
            Some(TestElem::Data { data }) => data@.len() > 0 ==> storage.items()[i].elem == Some(
                ElemView::Data { bytes: data@ },
            ) && storage.items()[i].len == data@.len(),
            Some(TestElem::End { seq_no, calc_crc }) => storage.items()[i].elem == Some(
                ElemView::End { seq: seq_no@, crc: calc_crc },
            ),
            None => storage.items()[i].elem is None,
        },
        0 <= i < storage.items@.len() ==> (storage.items()[i].elem matches Some(elem)
            ==> storage.items()[i].len == framed(elem).len()),
        TestStorage::faithful(),
        storage.forced_error is None ==> !storage.faults().read.contains(e)
            && !storage.faults().write.contains(e) && storage.faults().always is None,
        storage.forced_error matches Some(forced) ==> storage.faults().always == Some(forced),
{
}

/// Pushes are numbered one after the other, and begin with 0 again after the last number.
pub proof fn law_pushes_are_numbered(ctr: u64)
    ensures
        ctr < u64::MAX ==> next_number(ctr) == ctr + 1,
        ctr == u64::MAX ==> next_number(ctr) == 0,
{
}

} // verus!
