use cfg_noodle::elem::SeqNo;
use cfg_noodle::seq_state::{GoodWriteRecord, ItemRange, SeqState};

fn maker(seq: u32, start: usize, end: usize) -> GoodWriteRecord {
    GoodWriteRecord {
        seq: SeqNo::new(seq).unwrap(),
        range: ItemRange { start, end },
    }
}

#[test]
fn seq_sort() {
    let one = maker(1, 10, 15);
    let two = maker(2, 20, 25);
    let three = maker(3, 30, 35);
    let four = maker(4, 40, 45);

    let mut s = SeqState::<3>::new();
    assert_eq!(s.last_records, [None, None, None]);
    s.insert_good(one);
    assert_eq!(s.last_records, [None, None, Some(one)]);
    s.insert_good(two);
    assert_eq!(s.last_records, [None, Some(one), Some(two)]);
    s.insert_good(three);
    assert_eq!(s.last_records, [Some(one), Some(two), Some(three)]);
    s.insert_good(four);
    assert_eq!(s.last_records, [Some(two), Some(three), Some(four)]);
    s.insert_good(one);
    assert_eq!(s.last_records, [Some(two), Some(three), Some(four)]);
}

#[test]
fn storage_list_seq_sort() {
    let good = |seq: u32| maker(seq, 0, 0);
    let mut s = SeqState::<3>::new();
    assert_eq!(s.last_records, [None, None, None]);
    s.insert_good(good(1));
    assert_eq!(s.last_records, [None, None, Some(good(1))]);
    s.insert_good(good(2));
    assert_eq!(s.last_records, [None, Some(good(1)), Some(good(2))]);
    s.insert_good(good(3));
    assert_eq!(s.last_records, [Some(good(1)), Some(good(2)), Some(good(3))]);
    s.insert_good(good(4));
    assert_eq!(s.last_records, [Some(good(2)), Some(good(3)), Some(good(4))]);
    s.insert_good(good(1));
    assert_eq!(s.last_records, [Some(good(2)), Some(good(3)), Some(good(4))]);
}

/// The sequence numbers in the slots, 0 for an empty one.
fn last_three(s: &SeqState<3>) -> Vec<u32> {
    s.last_records
        .iter()
        .map(|slot| slot.map_or(0, |r| r.seq.get()))
        .collect()
}

#[test]
fn intrusive_seq_sort() {
    let mut s = SeqState::<3>::new();
    assert_eq!(last_three(&s), [0, 0, 0]);
    s.insert_good(maker(1, 0, 1));
    assert_eq!(last_three(&s), [0, 0, 1]);
    s.insert_good(maker(2, 2, 3));
    assert_eq!(last_three(&s), [0, 1, 2]);
    s.insert_good(maker(3, 4, 5));
    assert_eq!(last_three(&s), [1, 2, 3]);
    s.insert_good(maker(4, 6, 7));
    assert_eq!(last_three(&s), [2, 3, 4]);
    s.insert_good(maker(1, 8, 9));
    assert_eq!(last_three(&s), [2, 3, 4]);
}
