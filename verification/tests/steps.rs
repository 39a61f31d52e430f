use cfg_noodle::crc32::Crc32;
use cfg_noodle::elem::SeqNo;
use cfg_noodle::extract::{Extract, ExtractStep, Read};
use cfg_noodle::node_handle::{StorageListNode, StorageListNodeHandle};
use cfg_noodle::seq_state::ItemRange;
use cfg_noodle::storage::{NdlDataStorage, NdlElemIterNode};
use cfg_noodle::storage_list::StorageList;
use cfg_noodle::storage_node::CborUnsigned;
use cfg_noodle::test_utils::{TestElem, TestItem, TestStorage};
use cfg_noodle::verify_record::{Verify, VerifyStep};
use cfg_noodle::worker_task::{Worker, WorkerAction, WorkerEvent, WriteOutcome};
use cfg_noodle::write_record::Writing;

type List = StorageList<u64, CborUnsigned, 2>;
type Handle = StorageListNodeHandle<u64, CborUnsigned>;

/// Reads with the steps that a caller drives.
fn read_in_steps(list: &mut List, flash: &mut TestStorage) {
    if let Some(mut scan) = list.begin_scan() {
        let mut iter = flash.iter_elems().unwrap();
        while let Some(item) = flash.next(&mut iter).unwrap() {
            scan.step(item.data(), item.len());
        }
        list.finish_scan(scan);
    }
    if let Some(latest) = list.latest() {
        let mut extract = Extract::new(latest);
        let mut iter = flash.iter_elems().unwrap();
        loop {
            let item = flash.next(&mut iter).unwrap().unwrap();
            match list.extract_step(&mut extract, Read::Item(item.data(), item.len())) {
                ExtractStep::Continue => {}
                step => {
                    assert_eq!(step, ExtractStep::Done);
                    break;
                }
            }
        }
    }
    list.mark_initial_nonresident();
}

/// Writes with the steps that a caller drives.
fn write_in_steps(list: &mut List, flash: &mut TestStorage) {
    let Some(seq) = list.begin_write().unwrap() else {
        return;
    };
    let mut buf = [0u8; 64];
    let mut writing = Writing::new(seq);
    let used = flash.push(&writing.start_elem()).unwrap();
    writing.pushed(used);
    for i in 0..list.node_count() {
        if let Some(elem) = list.write_step(&mut writing, i, &mut buf).unwrap() {
            let used = flash.push(&elem).unwrap();
            writing.pushed(used);
        }
    }
    let (end, mut rpt) = writing.finish();
    rpt.bytes_written += flash.push(&end).unwrap();

    let mut verify = Verify::new(rpt);
    let mut iter = flash.iter_elems().unwrap();
    let range: ItemRange = loop {
        let item = flash.next(&mut iter).unwrap().unwrap();
        match verify.step(Read::Item(item.data(), item.len())) {
            VerifyStep::Continue => {}
            VerifyStep::Done(range) => break range,
            _ => panic!("the record is not there"),
        }
    };
    list.finish_write(seq, range);
}

/// Collects with the steps that a caller drives.
fn collect_in_steps(list: &mut List, flash: &mut TestStorage) {
    let Some(known) = list.begin_garbage() else {
        return;
    };
    let mut iter = flash.iter_elems().unwrap();
    let mut at: usize = 0;
    while let Some(item) = flash.next(&mut iter).unwrap() {
        if known.collects(item.data().is_some(), at) {
            flash.invalidate(&mut iter, item).unwrap();
        }
        at += 1;
    }
    let mut scan = list.begin_scan().unwrap();
    let mut iter = flash.iter_elems().unwrap();
    while let Some(item) = flash.next(&mut iter).unwrap() {
        scan.step(item.data(), item.len());
    }
    list.finish_scan(scan);
    list.finish_garbage(&known);
}

fn attached(list: &mut List, flash: &mut TestStorage) -> (Handle, Handle) {
    let mut a = StorageListNode::new("a", CborUnsigned);
    let mut b = StorageListNode::new("b", CborUnsigned);
    a.begin_attach(list).unwrap();
    b.begin_attach(list).unwrap();
    read_in_steps(list, flash);
    (
        a.finish_attach(list).unwrap(),
        b.finish_attach(list).unwrap(),
    )
}

/// What the steps do is what the operations do.
#[test]
fn steps_do_what_the_operations_do() {
    let mut in_steps = TestStorage::default();
    let mut at_once = TestStorage::default();
    let mut buf = [0u8; 64];

    for reboot in 0..3u64 {
        let mut list1 = List::new(1);
        let mut list2 = List::new(2);
        let mut a = StorageListNode::new("a", CborUnsigned);
        a.begin_attach(&mut list1).unwrap();
        read_in_steps(&mut list1, &mut in_steps);
        let mut a1 = a.finish_attach(&mut list1).unwrap();
        let mut a = StorageListNode::new("a", CborUnsigned);
        a.begin_attach(&mut list2).unwrap();
        list2.process_reads(&mut at_once).unwrap();
        let mut a2 = a.finish_attach(&mut list2).unwrap();
        assert_eq!(a1.load(&list1), a2.load(&list2));
        if reboot > 0 {
            assert_eq!(a1.load(&list1), (reboot - 1) * 1000 + 4);
        }
        collect_in_steps(&mut list1, &mut in_steps);
        list2.process_garbage(&mut at_once).unwrap();
        for i in 0..5 {
            a1.write(&mut list1, &(reboot * 1000 + i)).unwrap();
            write_in_steps(&mut list1, &mut in_steps);
            collect_in_steps(&mut list1, &mut in_steps);
            a2.write(&mut list2, &(reboot * 1000 + i)).unwrap();
            list2.process_writes(&mut at_once, &mut buf).unwrap();
            list2.process_garbage(&mut at_once).unwrap();
            assert_eq!(in_steps.items, at_once.items);
        }
        assert_eq!(list1.latest(), list2.latest());
    }
}

/// A write that is given up does not hold up the next one.
#[test]
fn abandoned_write_is_followed_by_another() {
    let mut flash = TestStorage::default();
    let mut list = List::new(1);
    let (mut a, b) = attached(&mut list, &mut flash);
    a.write(&mut list, &5).unwrap();
    let seq = list.begin_write().unwrap().unwrap();
    assert_eq!(seq.get(), 1);
    let writing: Writing<u64, CborUnsigned> = Writing::new(seq);
    flash.push(&writing.start_elem()).unwrap();
    list.abandon_write();
    write_in_steps(&mut list, &mut flash);
    assert_eq!(list.latest().unwrap().seq.get(), 2);
    assert_eq!(list.latest().unwrap().range, ItemRange { start: 1, end: 4 });
    assert_eq!((a.load(&list), b.load(&list)), (5, 0));

    let mut list = List::new(2);
    let (a, b) = attached(&mut list, &mut flash);
    assert_eq!((a.load(&list), b.load(&list)), (5, 0));
}

/// A worker that is told to stop writes what has not been written, after a collection where
/// one is due.
#[test]
fn stopping_worker_writes_what_is_pending() {
    let crc = |key_val: &[u8]| {
        let mut crc = Crc32::new();
        crc.update(key_val);
        crc.finalize()
    };
    let record = |n: u32, value: u8| {
        let seq_no = SeqNo::new(n).unwrap();
        [
            TestElem::Start { seq_no },
            TestElem::Data {
                data: vec![1, 0x61, 0x6B, value],
            },
            TestElem::End {
                seq_no,
                calc_crc: crc(&[0x61, 0x6B, value]),
            },
        ]
    };
    let mut flash = TestStorage::default();
    for elem in record(1, 1) {
        let ctr = flash.next_ctr();
        flash.items.push(TestItem {
            ctr,
            elem: Some(elem),
        });
    }

    let mut list = List::new(1);
    let mut node = StorageListNode::new("k", CborUnsigned);
    node.begin_attach(&mut list).unwrap();
    list.process_reads(&mut flash).unwrap();
    let mut handle: Handle = node.finish_attach(&mut list).unwrap();
    assert_eq!(handle.load(&list), 1);
    handle.write(&mut list, &2).unwrap();

    let mut buf = [0u8; 4096];
    let mut worker = Worker::new();
    let mut action = worker.step(WorkerEvent::Stop);
    let mut actions = vec![action];
    while action != WorkerAction::Stopped {
        let event = match action {
            WorkerAction::ProcessWrites => {
                let r = list.process_writes(&mut flash, &mut buf);
                WorkerEvent::WriteDone(WriteOutcome::of(&r))
            }
            WorkerAction::ProcessGarbage => {
                WorkerEvent::GarbageDone(list.process_garbage(&mut flash).is_ok())
            }
            _ => panic!("a worker that stops does nothing else"),
        };
        action = worker.step(event);
        actions.push(action);
    }
    assert_eq!(
        actions,
        [
            WorkerAction::ProcessWrites,
            WorkerAction::ProcessGarbage,
            WorkerAction::ProcessWrites,
            WorkerAction::Stopped,
        ]
    );
    let stored: Vec<TestElem> = flash.items.into_iter().filter_map(|item| item.elem).collect();
    let mut expected = Vec::from(record(1, 1));
    expected.extend(record(2, 2));
    assert_eq!(stored, expected);
    assert_eq!(handle.load(&list), 2);
}
