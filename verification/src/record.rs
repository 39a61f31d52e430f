//! Write records among the items of a storage.
//!
//! A good write record is a Start element, one or more Data elements and an End element,
//! one right after the other, where Start and End carry the same sequence number and End
//! carries the checksum of the data. Everything else in a storage is ignored.
use crate::crc32::crc32_of;
use crate::elem::{key_val_of, ElemView};
use crate::storage::ItemView;
use vstd::prelude::*;

verus! {

/// A good write record: its sequence number, and the indices of its Start and End elements.
pub struct RecordView {
    pub seq: u32,
    pub start: int,
    pub end: int,
}

/// Whether an item is a data element.
pub open spec fn is_data(item: ItemView) -> bool {
    item.elem matches Some(elem) && elem is Data
}

/// The keys and values of the data elements among `items`, one after the other.
pub open spec fn data_of(items: Seq<ItemView>) -> Seq<u8>
    decreases items.len(),
{
    if items.len() == 0 {
        Seq::empty()
    } else {
        match items.last().elem {
            Some(ElemView::Data { bytes }) => data_of(items.drop_last()) + key_val_of(bytes),
            _ => data_of(items.drop_last()),
        }
    }
}

/// Whether `r` is a good write record among `items`.
pub open spec fn is_good_record(items: Seq<ItemView>, r: RecordView) -> bool {
    &&& r.seq != 0
    &&& 0 <= r.start && r.start + 1 < r.end < items.len()
    &&& items[r.start].elem == Some(ElemView::Start { seq: r.seq })
    &&& forall|k: int| r.start < k < r.end ==> is_data(#[trigger] items[k])
    &&& items[r.end].elem == Some(
        ElemView::End {
            seq: r.seq,
            crc: crc32_of(data_of(items.subrange(r.start + 1, r.end))),
        },
    )
}

/// The highest number of a Start element among `items`, or 0 where there is none.
pub open spec fn highest_start(items: Seq<ItemView>) -> u32
    decreases items.len(),
{
    if items.len() == 0 {
        0
    } else {
        let front = highest_start(items.drop_last());
        match items.last().elem {
            Some(ElemView::Start { seq }) => if seq > front {
                seq
            } else {
                front
            },
            _ => front,
        }
    }
}

/// Whether the numbers of all Start elements are below `seq`.
pub open spec fn numbers_below(items: Seq<ItemView>, seq: u32) -> bool {
    forall|i: int|
        0 <= i < items.len() ==> ((#[trigger] items[i]).elem matches Some(
            ElemView::Start { seq: number },
        ) ==> number < seq)
}

/// A number is above those of all Start elements where it is above the highest.
pub proof fn lemma_highest_start(items: Seq<ItemView>, seq: u32)
    requires
        seq > 0,
    ensures
        highest_start(items) < seq <==> numbers_below(items, seq),
    decreases items.len(),
{
    if items.len() > 0 {
        let front = items.drop_last();
        lemma_highest_start(front, seq);
        if numbers_below(items, seq) {
            assert forall|i: int| 0 <= i < front.len() implies ((
            #[trigger] front[i]).elem matches Some(ElemView::Start { seq: number }) ==> number
                < seq) by {
                assert(front[i] == items[i]);
            }
            assert(items[items.len() - 1] == items.last());
        }
        if highest_start(items) < seq {
            assert forall|i: int| 0 <= i < items.len() implies ((
            #[trigger] items[i]).elem matches Some(ElemView::Start { seq: number }) ==> number
                < seq) by {
                if i < front.len() {
                    assert(front[i] == items[i]);
                }
            }
        }
    }
}

/// The index of the Start element whose record is still open after `items`: only data
/// elements follow it.
pub open spec fn open_start(items: Seq<ItemView>) -> Option<int>
    decreases items.len(),
{
    if items.len() == 0 {
        None
    } else {
        match items.last().elem {
            Some(ElemView::Start { .. }) => Some(items.len() - 1),
            Some(ElemView::Data { .. }) => open_start(items.drop_last()),
            _ => None,
        }
    }
}

/// The good write record that the last of `items` closes, if it closes one.
pub open spec fn record_closed_by_last(items: Seq<ItemView>) -> Option<RecordView> {
    match (items.last().elem, open_start(items.drop_last())) {
        (Some(ElemView::End { seq, crc }), Some(start)) => {
            let r = RecordView { seq, start, end: items.len() - 1 };
            if is_good_record(items, r) {
                Some(r)
            } else {
                None
            }
        },
        _ => None,
    }
}

/// The good write records among `items`, in the order in which they lie in the storage.
pub open spec fn good_records(items: Seq<ItemView>) -> Seq<RecordView>
    decreases items.len(),
{
    if items.len() == 0 {
        Seq::empty()
    } else {
        match record_closed_by_last(items) {
            Some(r) => good_records(items.drop_last()).push(r),
            None => good_records(items.drop_last()),
        }
    }
}

/// An open record begins with a Start element, and only data elements follow.
pub proof fn lemma_open_start(items: Seq<ItemView>)
    ensures
        open_start(items) matches Some(at) ==> {
            &&& 0 <= at < items.len()
            &&& items[at].elem matches Some(elem)
            &&& elem is Start
            &&& forall|k: int| at < k < items.len() ==> is_data(#[trigger] items[k])
        },
    decreases items.len(),
{
    if items.len() > 0 {
        lemma_open_start(items.drop_last());
        if items.last().elem matches Some(ElemView::Data { .. }) {
            if let Some(at) = open_start(items.drop_last()) {
                assert forall|k: int| at < k < items.len() implies is_data(#[trigger] items[k]) by {
                    if k < items.len() - 1 {
                        assert(is_data(items.drop_last()[k]));
                    }
                }
            }
        }
    }
}

/// A Start element that only data elements follow is the open one.
pub proof fn lemma_open_start_unique(items: Seq<ItemView>, at: int)
    requires
        0 <= at < items.len(),
        items[at].elem matches Some(elem) && elem is Start,
        forall|k: int| at < k < items.len() ==> is_data(#[trigger] items[k]),
    ensures
        open_start(items) == Some(at),
    decreases items.len(),
{
    if at < items.len() - 1 {
        assert(is_data(items[items.len() - 1]));
        assert forall|k: int| at < k < items.len() - 1 implies is_data(
            #[trigger] items.drop_last()[k],
        ) by {
            assert(is_data(items[k]));
        }
        lemma_open_start_unique(items.drop_last(), at);
    }
}

/// A good record stays one when items follow, and was one before they did.
pub proof fn lemma_good_record_prefix(items: Seq<ItemView>, n: int, r: RecordView)
    requires
        r.end < n <= items.len(),
    ensures
        is_good_record(items.take(n), r) <==> is_good_record(items, r),
{
    let front = items.take(n);
    if 0 <= r.start < r.end {
        assert(front.subrange(r.start + 1, r.end) =~= items.subrange(
            r.start + 1,
            r.end,
        ));
    }
    if is_good_record(items, r) {
        assert forall|k: int| r.start < k < r.end implies is_data(#[trigger] front[k]) by {
            assert(is_data(items[k]));
        }
    }
    if is_good_record(front, r) {
        assert forall|k: int| r.start < k < r.end implies is_data(#[trigger] items[k]) by {
            assert(is_data(front[k]));
        }
    }
}

/// Good records have numbers.
pub proof fn lemma_good_records_numbered(items: Seq<ItemView>)
    ensures
        forall|i: int| 0 <= i < good_records(items).len() ==> (#[trigger] good_records(
            items,
        )[i]).seq > 0,
{
    assert forall|i: int| 0 <= i < good_records(items).len() implies (#[trigger] good_records(
        items,
    )[i]).seq > 0 by {
        let r = good_records(items)[i];
        assert(good_records(items).contains(r));
        law_scan_finds_the_good_records(items, r);
    }
}

/// The records that a scan finds are the good write records, no more and no fewer.
pub proof fn law_scan_finds_the_good_records(items: Seq<ItemView>, r: RecordView)
    ensures
        good_records(items).contains(r) <==> is_good_record(items, r),
    decreases items.len(),
{
    if items.len() == 0 {
        assert(!good_records(items).contains(r));
    } else {
        let front = items.drop_last();
        assert(front =~= items.take(items.len() - 1));
        law_scan_finds_the_good_records(front, r);
        let found = good_records(front);
        if r.end < items.len() - 1 {
            lemma_good_record_prefix(items, items.len() - 1, r);
        }
        if is_good_record(items, r) && r.end == items.len() - 1 {
            assert forall|k: int| r.start < k < front.len() implies is_data(
                #[trigger] front[k],
            ) by {
                assert(is_data(items[k]));
            }
            lemma_open_start_unique(front, r.start);
            assert(record_closed_by_last(items) == Some(r));
        }
        match record_closed_by_last(items) {
            Some(last) => {
                assert(found.push(last)[found.len() as int] == last);
                assert(forall|x: RecordView|
                    found.contains(x) ==> found.push(last).contains(x)) by {
                    assert forall|x: RecordView| found.contains(x) implies found.push(
                        last,
                    ).contains(x) by {
                        let i = choose|i: int| 0 <= i < found.len() && found[i] == x;
                        assert(found.push(last)[i] == x);
                    }
                }
                if good_records(items).contains(r) {
                    let i = choose|i: int|
                        0 <= i < good_records(items).len() && good_records(items)[i] == r;
                    if i < found.len() {
                        assert(found[i] == r);
                    }
                }
            },
            None => {},
        }
    }
}

} // verus!
