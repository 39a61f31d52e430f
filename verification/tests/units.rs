use cfg_noodle::consts::{
    ELEM_DISCRIMINANT_DATA, ELEM_DISCRIMINANT_END, ELEM_DISCRIMINANT_MASK, ELEM_DISCRIMINANT_START,
    ELEM_VERSION_MASK, ELEM_VERSION_V0, V0_DATA, V0_END, V0_START,
};
use cfg_noodle::crc32::Crc32;
use cfg_noodle::demo::{
    self, AlphaConfig, BetaConfig, BlinkConfig, DeltaConfig, DemoAction, DemoEvent, DemoPhase, DemoWorker,
    EpsilonConfig,
};
use cfg_noodle::elem::{Elem, SeqNo, SerData};
use cfg_noodle::empty::AlwaysEmptyFlash;
use cfg_noodle::error::{Error, LoadStoreError};
use cfg_noodle::flash::{frame, max, max_elem_size, size_with_overhead, HalfElem};
use cfg_noodle::node_handle::StorageListNode;
use cfg_noodle::seq_state::{GoodWriteRecord, ItemRange, SeqState};
use cfg_noodle::storage::{count, NdlDataStorage};
use cfg_noodle::storage_list::{ProcessWriteCounters, StorageList};
use cfg_noodle::storage_node::{CborUnsigned, State, VTable};
use cfg_noodle::test_utils::TestStorageError;
use cfg_noodle::worker_task::{
    read_signal, write_signal, Worker, WorkerAction, WorkerEvent, WorkerPhase, WriteOutcome,
    FIRST_GC_DELAY_MS,
};

fn seq(n: u32) -> SeqNo {
    SeqNo::new(n).unwrap()
}

fn record(n: u32, start: usize, end: usize) -> GoodWriteRecord {
    GoodWriteRecord {
        seq: seq(n),
        range: ItemRange { start, end },
    }
}

#[test]
fn headers_hold_version_and_discriminant() {
    assert_eq!(ELEM_VERSION_MASK, 0xF0);
    assert_eq!(ELEM_DISCRIMINANT_MASK, 0x0F);
    assert_eq!(V0_START, ELEM_VERSION_V0 | ELEM_DISCRIMINANT_START);
    assert_eq!(V0_DATA, ELEM_VERSION_V0 | ELEM_DISCRIMINANT_DATA);
    assert_eq!(V0_END, ELEM_VERSION_V0 | ELEM_DISCRIMINANT_END);
    assert_eq!((V0_START, V0_DATA, V0_END), (0, 1, 2));
}

#[test]
fn crc_of_the_check_string() {
    let mut crc = Crc32::new();
    crc.update(b"123456789");
    assert_eq!(crc.finalize(), 0x765e7680);
    // in parts it is the same
    let mut crc = Crc32::default();
    crc.update(b"1234");
    crc.update(b"");
    crc.update(b"56789");
    assert_eq!(crc.finalize(), 0x765e7680);
    assert_eq!(Crc32::new().finalize(), 0xFFFF_FFFF);
}

#[test]
fn key_and_value_of_a_data_element() {
    let bytes = [1u8, 0x63, b'k', b'e', b'y', 0x81, 0x07];
    let data = SerData::from_existing(&bytes).unwrap();
    assert_eq!(data.hdr(), 1);
    assert_eq!(data.key_val(), &bytes[1..]);
    assert_eq!(data.hdr_key_val(), &bytes);
    let pair = data.kv_pair().unwrap();
    assert_eq!(pair.key, "key");
    assert_eq!(pair.body, &[0x81, 0x07]);
}

#[test]
fn long_and_foreign_keys() {
    let key = "schlüssel/".repeat(30);
    let mut bytes = vec![0u8];
    bytes.extend(minicbor::to_vec(key.as_str()).unwrap());
    let head = bytes.len();
    bytes.push(0x05);
    let data = SerData::from_existing(&bytes).unwrap();
    let pair = data.kv_pair().unwrap();
    assert_eq!(pair.key, key);
    assert_eq!(pair.body, &[0x05]);
    assert_eq!(head, 1 + 3 + key.len());
}

#[test]
fn data_without_a_key() {
    assert!(SerData::from_existing(&[]).is_none());
    for bytes in [&[1u8][..], &[1, 0x05], &[1, 0x63, b'k'], &[1, 0x61, 0xFF]] {
        let data = SerData::from_existing(bytes).unwrap();
        assert!(matches!(data.kv_pair(), Err(Error::Deserialization)));
    }
}

#[test]
fn new_data_gets_its_header() {
    let mut bytes = [9u8, 0x61, b'k'];
    let data = SerData::new(&mut bytes).unwrap();
    assert_eq!(data.hdr_key_val(), &[1, 0x61, b'k']);
    assert!(SerData::new(&mut []).is_none());
}

#[test]
fn elements_are_framed_and_parsed() {
    let start = frame(&Elem::Start {
        seq_no: seq(0x04030201),
    });
    assert_eq!(start, [0, 1, 2, 3, 4]);
    let end = frame(&Elem::End {
        seq_no: seq(0x04030201),
        calc_crc: 0x08070605,
    });
    assert_eq!(end, [2, 1, 2, 3, 4, 5, 6, 7, 8]);
    let bytes = [1u8, 0x61, b'k', 0];
    let data = SerData::from_existing(&bytes).unwrap();
    assert_eq!(frame(&Elem::Data { data }), bytes);

    match HalfElem::from_bytes(&start).unwrap().elem(&start) {
        Some(Elem::Start { seq_no }) => assert_eq!(seq_no.get(), 0x04030201),
        _ => panic!("no start"),
    }
    match HalfElem::from_bytes(&end).unwrap().elem(&end) {
        Some(Elem::End { seq_no, calc_crc }) => {
            assert_eq!(seq_no.get(), 0x04030201);
            assert_eq!(calc_crc, 0x08070605);
        }
        _ => panic!("no end"),
    }
    match HalfElem::from_bytes(&bytes).unwrap().elem(&bytes) {
        Some(Elem::Data { data }) => assert_eq!(data.hdr_key_val(), &bytes),
        _ => panic!("no data"),
    }
}

#[test]
fn bytes_that_are_no_element() {
    let bad: [&[u8]; 10] = [
        &[],
        &[0],
        &[0, 1, 2, 3],
        &[0, 1, 2, 3, 4, 5],
        // a sequence number of zero
        &[0, 0, 0, 0, 0],
        // data without key and value
        &[1],
        &[2, 1, 2, 3, 4, 5, 6, 7],
        &[2, 0, 0, 0, 0, 5, 6, 7, 8],
        // an unknown kind, and an unknown version
        &[3, 1],
        &[0x11, 0x61, b'k'],
    ];
    for bytes in bad {
        assert!(HalfElem::from_bytes(bytes).is_none());
    }
}

#[test]
fn sizes_in_the_queue() {
    assert_eq!(max(3, 4), 4);
    assert_eq!(max(4, 3), 4);
    assert_eq!(size_with_overhead(9, 8, 4, 1), 8 + 12);
    assert_eq!(size_with_overhead(8, 8, 4, 1), 8 + 8);
    assert_eq!(size_with_overhead(0, 8, 4, 16), 8);
    assert_eq!(size_with_overhead(1, 8, 4, 16), 8 + 16);
    assert_eq!(max_elem_size(4096, 4, 1, 8), 4096 - 8 - 8);
    assert_eq!(count(3, 4), 7);
    assert_eq!(count(usize::MAX - 1, 2), usize::MAX);
}

#[test]
fn sequence_numbers() {
    assert!(SeqNo::new(0).is_none());
    assert_eq!(seq(1).checked_next(), Some(seq(2)));
    assert_eq!(seq(u32::MAX).checked_next(), None);
}

#[test]
fn states_have_numbers() {
    let states = [
        State::Initial,
        State::NonResident,
        State::ValidNoWriteNeeded,
        State::NeedsWrite,
    ];
    for (n, state) in states.into_iter().enumerate() {
        assert_eq!(state.into_u8(), n as u8);
        assert_eq!(State::from_u8(n as u8), state);
    }
}

#[test]
fn unsigned_values_are_written_and_read() {
    for value in [0u64, 23, 24, 255, 256, 65535, 65536, u32::MAX as u64, u64::MAX] {
        let mut buf = [0xEEu8; 12];
        let n = CborUnsigned.serialize(&value, &mut buf).unwrap();
        assert_eq!(&buf[..n], minicbor::to_vec(value).unwrap());
        assert_eq!(buf[n], 0xEE);
        assert_eq!(CborUnsigned.encoded_len(&value), n);
        assert_eq!(CborUnsigned.deserialize(&buf), Ok(value));
        assert_eq!(CborUnsigned.serialize(&value, &mut buf[..n - 1]), Err(()));
        assert_eq!(CborUnsigned.deserialize(&buf[..n - 1]), Err(()));
    }
    assert_eq!(CborUnsigned.deserialize(&[0x61, b'k']), Err(()));
}

#[test]
fn records_that_are_kept() {
    let mut s = SeqState::<2>::new();
    assert!(!s.initial_scan_completed());
    assert!(s.highest_seen().is_none());
    s.insert_good(record(7, 0, 4));
    s.insert_good(record(5, 10, 14));
    assert!(s.initial_scan_completed());
    assert_eq!(s.highest_seen(), Some(record(7, 0, 4)));
    assert_eq!(s.next_seq, Some(seq(8)));
    assert!(s.needs_gc);
    let kept: Vec<usize> = (0..20).filter(|n| s.last_records_contain(*n)).collect();
    assert_eq!(kept, [0, 1, 2, 3, 4, 10, 11, 12, 13, 14]);
    // an older record does not come in
    s.insert_good(record(4, 15, 19));
    assert!(!s.last_records_contain(15));
    // a number can be given up
    s.skip_seq();
    assert_eq!(s.next_seq, Some(seq(9)));
    assert_eq!(s.highest_seen(), Some(record(7, 0, 4)));
    // numbers can run out
    s.insert_good(record(u32::MAX, 20, 24));
    assert_eq!(s.next_seq, None);
}

#[test]
fn empty_flash_is_always_empty() {
    let mut flash = AlwaysEmptyFlash;
    let mut iter = flash.iter_elems().unwrap();
    assert_eq!(flash.push(&Elem::Start { seq_no: seq(1) }), Ok(0));
    assert!(flash.next(&mut iter).unwrap().is_none());
    assert_eq!(AlwaysEmptyFlash::max_elem_size(), 0);
    // what is written to it cannot be verified
    let mut list = StorageList::<u64, CborUnsigned, 1>::new(1);
    let mut node = StorageListNode::new("k", CborUnsigned);
    node.begin_attach(&mut list).unwrap();
    list.process_reads(&mut flash).unwrap();
    assert!(node.finish_attach(&mut list).is_some());
    assert_eq!(
        list.process_writes(&mut flash, &mut [0u8; 8]),
        Err(LoadStoreError::AppError(Error::InconsistentFlash))
    );
}

#[test]
fn worker_answers_signals() {
    let mut worker = Worker::new();
    assert_eq!(worker.step(WorkerEvent::NeedsRead), WorkerAction::ProcessReads);
    assert_eq!(worker.phase(), WorkerPhase::Reading);
    assert_eq!(
        worker.step(WorkerEvent::ReadDone(false)),
        WorkerAction::WaitAndScheduleGc(FIRST_GC_DELAY_MS)
    );
    assert_eq!(worker.step(WorkerEvent::NeedsWrite), WorkerAction::ProcessGarbage);
    assert_eq!(worker.step(WorkerEvent::GarbageDone(false)), WorkerAction::ProcessWrites);
    assert_eq!(
        worker.step(WorkerEvent::WriteDone(WriteOutcome::Failed)),
        WorkerAction::ProcessGarbage
    );
    assert_eq!(worker.step(WorkerEvent::GarbageDone(true)), WorkerAction::Wait);
    assert_eq!(worker.phase(), WorkerPhase::Waiting);

    // only a collection that was signalled counts as the first
    assert_eq!(worker.step(WorkerEvent::NeedsRead), WorkerAction::ProcessReads);
    assert_eq!(
        worker.step(WorkerEvent::ReadDone(true)),
        WorkerAction::WaitAndScheduleGc(120_000)
    );
    assert_eq!(worker.step(WorkerEvent::NeedsGc), WorkerAction::ProcessGarbage);
    assert_eq!(worker.step(WorkerEvent::GarbageDone(true)), WorkerAction::Wait);
    assert_eq!(worker.step(WorkerEvent::NeedsRead), WorkerAction::ProcessReads);
    assert_eq!(worker.step(WorkerEvent::ReadDone(true)), WorkerAction::Wait);
}

#[test]
fn worker_flushes_before_it_stops() {
    let mut worker = Worker::default();
    assert_eq!(worker.step(WorkerEvent::Stop), WorkerAction::ProcessWrites);
    assert_eq!(
        worker.step(WorkerEvent::WriteDone(WriteOutcome::Written)),
        WorkerAction::Stopped
    );

    let mut worker = Worker::new();
    worker.step(WorkerEvent::NeedsRead);
    assert_eq!(worker.step(WorkerEvent::Stop), WorkerAction::ProcessWrites);
    assert_eq!(
        worker.step(WorkerEvent::WriteDone(WriteOutcome::NeedsGarbageCollect)),
        WorkerAction::ProcessGarbage
    );
    assert_eq!(worker.step(WorkerEvent::GarbageDone(true)), WorkerAction::ProcessWrites);
    assert_eq!(
        worker.step(WorkerEvent::WriteDone(WriteOutcome::NeedsGarbageCollect)),
        WorkerAction::Stopped
    );
    assert_eq!(worker.phase(), WorkerPhase::Stopped);
}

#[test]
fn numbers_go_on_above_the_highest() {
    let mut state: SeqState<2> = SeqState::new();
    state.number_above(0);
    assert_eq!(state.next_seq, Some(seq(1)));
    state.insert_good(record(4, 0, 2));
    state.number_above(3);
    assert_eq!(state.next_seq, Some(seq(5)));
    state.number_above(9);
    assert_eq!(state.next_seq, Some(seq(10)));

    let mut later: SeqState<2> = SeqState::new();
    later.number_above(19);
    state.keep_later(&later);
    assert_eq!(state.next_seq, Some(seq(20)));
    later.number_above(2);
    state.keep_later(&later);
    assert_eq!(state.next_seq, Some(seq(20)));
    state.number_above(u32::MAX);
    assert_eq!(state.next_seq, None);

    // only what decodes and belongs to a record is kept
    assert!(!state.collects(true, 0));
    assert!(!state.collects(true, 2));
    assert!(state.collects(true, 3));
    assert!(state.collects(false, 1));
}

#[test]
fn order_of_records_does_not_matter() {
    let mut one: SeqState<2> = SeqState::new();
    let mut other: SeqState<2> = SeqState::new();
    let records = [record(4, 0, 2), record(9, 3, 5), record(2, 6, 8)];
    for (i, j) in [(0, 2), (1, 0), (2, 1)] {
        one.insert_good(records[i]);
        other.insert_good(records[j]);
    }
    assert_eq!(one.last_records, [Some(records[0]), Some(records[1])]);
    assert_eq!(one.last_records, other.last_records);
    assert_eq!((one.next_seq, other.next_seq), (Some(seq(10)), Some(seq(10))));
}

#[test]
fn signals_are_debounced() {
    let (read, write) = (read_signal(), write_signal());
    assert_eq!((read.quiet_ms, write.quiet_ms), (100, 10_000));
    // each further signal starts the period anew
    assert_eq!(read.after_period(true), None);
    assert_eq!(read.after_period(true), None);
    assert_eq!(read.after_period(false), Some(WorkerEvent::NeedsRead));
    assert_eq!(write.after_period(true), None);
    assert_eq!(write.after_period(false), Some(WorkerEvent::NeedsWrite));

    let (read, write) = (demo::read_signal(), demo::write_signal());
    assert_eq!((read.quiet_ms, write.quiet_ms), (100, 1_000));
    assert_eq!(read.after_period(true), None);
    assert_eq!(read.after_period(false), Some(DemoEvent::NeedsRead));
    assert_eq!(write.after_period(false), Some(DemoEvent::NeedsWrite));
}

#[test]
fn outcomes_of_writes() {
    type Written = Result<ProcessWriteCounters, LoadStoreError<TestStorageError>>;
    let written: Written = Ok(ProcessWriteCounters {
        total_bytes_read: 0,
        current_bytes_written: 0,
    });
    assert_eq!(WriteOutcome::of(&written), WriteOutcome::Written);
    let cases = [
        (
            LoadStoreError::AppError(Error::NeedsGarbageCollect),
            WriteOutcome::NeedsGarbageCollect,
        ),
        (
            LoadStoreError::AppError(Error::NeedsFirstRead),
            WriteOutcome::NeedsFirstRead,
        ),
        (
            LoadStoreError::AppError(Error::Serialization),
            WriteOutcome::Failed,
        ),
        (
            LoadStoreError::FlashWrite(TestStorageError::FakeBadRead),
            WriteOutcome::Failed,
        ),
        (LoadStoreError::WriteVerificationFailed, WriteOutcome::Failed),
    ];
    for (e, outcome) in cases {
        let failed: Written = Err(e);
        assert_eq!(WriteOutcome::of(&failed), outcome);
    }
    let converted: LoadStoreError<TestStorageError> = Error::DuplicateKey.into();
    assert_eq!(converted, LoadStoreError::AppError(Error::DuplicateKey));
}

#[test]
fn blink_times() {
    let config = BlinkConfig::default();
    assert_eq!((config.on_time_ms, config.off_time_ms), (25, 25));
    assert_eq!(config.validated(), (config, false));
    let mut times = Vec::new();
    let mut config = BlinkConfig::default();
    for _ in 0..7 {
        times.push(config.on_time_ms);
        config = config.pressed();
    }
    assert_eq!(times, [25, 50, 100, 200, 400, 800, 25]);
    let bad = BlinkConfig {
        on_time_ms: 24,
        off_time_ms: 1500,
    };
    let good = BlinkConfig {
        on_time_ms: 25,
        off_time_ms: 1500,
    };
    assert_eq!(bad.validated(), (good, true));
    let bad = BlinkConfig {
        on_time_ms: 25,
        off_time_ms: 1501,
    };
    assert_eq!(bad.validated(), (BlinkConfig::default(), true));
}

#[test]
fn demo_worker_collects_until_it_succeeds() {
    let mut worker = DemoWorker::new();
    for ok in [false, true] {
        assert_eq!(worker.step(DemoEvent::NeedsRead), DemoAction::ProcessReads);
        let action = worker.step(DemoEvent::ReadDone(!ok));
        assert_eq!(action, DemoAction::ProcessGarbage);
        assert_eq!(worker.step(DemoEvent::GarbageDone(ok)), DemoAction::Wait);
        assert_eq!(worker.first_gc_done, ok);
    }
    assert_eq!(worker.step(DemoEvent::NeedsRead), DemoAction::ProcessReads);
    assert_eq!(worker.step(DemoEvent::ReadDone(true)), DemoAction::Wait);
    assert_eq!(worker.phase, DemoPhase::Waiting);
}

#[test]
fn demo_worker_always_collects_after_writes() {
    let mut worker = DemoWorker::default();
    for (written, collected) in [(true, true), (false, true), (true, false)] {
        assert_eq!(worker.step(DemoEvent::NeedsWrite), DemoAction::ProcessWrites);
        let action = worker.step(DemoEvent::WriteDone(written));
        assert_eq!(action, DemoAction::ProcessGarbage);
        assert_eq!(worker.step(DemoEvent::GarbageDone(collected)), DemoAction::Wait);
        // a collection after a write is not the first one
        assert!(!worker.first_gc_done);
    }
}

#[test]
fn demo_configurations_tick() {
    let mut alpha = AlphaConfig {
        data_a: [255; 32],
        data_b: [1; 16],
        data_c: [2; 8],
        data_d: [3; 8],
    };
    alpha.tick();
    assert_eq!((alpha.data_a, alpha.data_b), ([0; 32], [2; 16]));
    assert_eq!((alpha.data_c, alpha.data_d), ([3; 8], [4; 8]));

    let mut beta = BetaConfig {
        data_a: [u32::MAX; 8],
        data_b: [1; 4],
        data_c: [2; 2],
        data_d: [3; 2],
    };
    beta.tick();
    assert_eq!((beta.data_a, beta.data_b), ([0; 8], [2; 4]));
    assert_eq!((beta.data_c, beta.data_d), ([3; 2], [4; 2]));

    let mut delta = DeltaConfig {
        data_a: [0x1_0001; 8],
        data_b: [3; 4],
        data_c: [4; 2],
        data_d: [0xFFFF_FFFF; 2],
    };
    delta.tick();
    assert_eq!((delta.data_a, delta.data_b), ([0x2_0001; 8], [9; 4]));
    assert_eq!((delta.data_c, delta.data_d), ([16; 2], [1; 2]));

    let mut epsilon = EpsilonConfig {
        data_a: [0x8001; 16],
        data_b: [0x4000; 8],
        data_c: [0xFFFF; 4],
        data_d: [0x0001; 4],
    };
    epsilon.tick();
    assert_eq!((epsilon.data_a, epsilon.data_b), ([0x0003; 16], [0x8000; 8]));
    assert_eq!((epsilon.data_c, epsilon.data_d), ([0xFFFF; 4], [0x0002; 4]));
}
