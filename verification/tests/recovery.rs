use cfg_noodle::crc32::Crc32;
use cfg_noodle::elem::{Elem, SeqNo};
use cfg_noodle::error::{Error, LoadStoreError};
use cfg_noodle::node_handle::{StorageListNode, StorageListNodeHandle};
use cfg_noodle::storage::{NdlDataStorage, NdlElemIterNode};
use cfg_noodle::storage_list::StorageList;
use cfg_noodle::storage_node::{State, VTable};
use cfg_noodle::test_utils::{
    TestElem, TestItem, TestStorage, TestStorageError, TestStorageItemNode, TestStorageIter,
};
use minicbor::encode::write::Cursor;

#[derive(Debug, Default, Clone, PartialEq)]
struct SimpleConfig {
    data: u64,
}

/// Stands for a configuration as a CBOR array of one integer.
#[derive(Clone, Copy)]
struct SimpleTable;

impl VTable<SimpleConfig> for SimpleTable {
    fn serialize(&self, t: &SimpleConfig, buf: &mut [u8]) -> Result<usize, ()> {
        let mut e = minicbor::Encoder::new(Cursor::new(buf));
        e.array(1).and_then(|e| e.u64(t.data)).map_err(|_| ())?;
        Ok(e.into_writer().position())
    }

    fn deserialize(&self, buf: &[u8]) -> Result<SimpleConfig, ()> {
        let mut d = minicbor::Decoder::new(buf);
        match d.array() {
            Ok(Some(1)) => Ok(SimpleConfig {
                data: d.u64().map_err(|_| ())?,
            }),
            _ => Err(()),
        }
    }

    fn encoded_len(&self, t: &SimpleConfig) -> usize {
        1 + minicbor::len(t.data)
    }
}

#[derive(Debug, Default, Clone, PartialEq)]
struct TestConfig {
    value: u32,
    truth: bool,
    optional_truth: Option<bool>,
}

/// Stands for a configuration as a CBOR array of three values.
#[derive(Clone, Copy)]
struct TestTable;

impl VTable<TestConfig> for TestTable {
    fn serialize(&self, t: &TestConfig, buf: &mut [u8]) -> Result<usize, ()> {
        let mut e = minicbor::Encoder::new(Cursor::new(buf));
        e.array(3)
            .and_then(|e| e.u32(t.value))
            .and_then(|e| e.bool(t.truth))
            .and_then(|e| e.encode(t.optional_truth))
            .map_err(|_| ())?;
        Ok(e.into_writer().position())
    }

    fn deserialize(&self, buf: &[u8]) -> Result<TestConfig, ()> {
        let mut d = minicbor::Decoder::new(buf);
        match d.array() {
            Ok(Some(3)) => Ok(TestConfig {
                value: d.u32().map_err(|_| ())?,
                truth: d.bool().map_err(|_| ())?,
                optional_truth: d.decode().map_err(|_| ())?,
            }),
            _ => Err(()),
        }
    }

    fn encoded_len(&self, t: &TestConfig) -> usize {
        1 + minicbor::len(t.value) + minicbor::len(t.truth) + minicbor::len(t.optional_truth)
    }
}

type List = StorageList<SimpleConfig, SimpleTable, 3>;
type Node = StorageListNode<SimpleConfig, SimpleTable>;
type Handle = StorageListNodeHandle<SimpleConfig, SimpleTable>;

fn seq(n: u32) -> SeqNo {
    SeqNo::new(n).unwrap()
}

fn push(flash: &mut TestStorage, elem: TestElem) {
    let ctr = flash.next_ctr();
    flash.items.push(TestItem {
        ctr,
        elem: Some(elem),
    });
}

fn start(flash: &mut TestStorage, n: u32) {
    push(flash, TestElem::Start { seq_no: seq(n) });
}

fn end(flash: &mut TestStorage, n: u32, calc_crc: u32) {
    push(
        flash,
        TestElem::End {
            seq_no: seq(n),
            calc_crc,
        },
    );
}

/// Adds a data element, and returns its key and value.
fn add_data_elem(flash: &mut TestStorage, key: &str, data: u64) -> Vec<u8> {
    let mut key_val = minicbor::to_vec(key).unwrap();
    key_val.extend(minicbor::to_vec([data]).unwrap());
    let mut data = vec![1];
    data.extend(&key_val);
    push(flash, TestElem::Data { data });
    key_val
}

/// Adds a write record with values for three keys.
fn add_record(flash: &mut TestStorage, n: u32, values: [u64; 3]) {
    let mut crc = Crc32::new();
    start(flash, n);
    crc.update(&add_data_elem(flash, "test/config1", values[0]));
    crc.update(&add_data_elem(flash, "test/config2", values[1]));
    crc.update(&add_data_elem(flash, "test/config3", values[2]));
    end(flash, n, crc.finalize());
}

/// Spoils the CRC of the newest item.
fn spoil_crc(flash: &mut TestStorage) {
    match flash.items.last_mut() {
        Some(TestItem {
            elem: Some(TestElem::End { calc_crc, .. }),
            ..
        }) => *calc_crc = !*calc_crc,
        _ => panic!("the newest item ends no record"),
    }
}

/// Elements that make no record.
fn add_rubbish(flash: &mut TestStorage) {
    add_data_elem(flash, "test/configx", 1);
    start(flash, 4);
    add_data_elem(flash, "test/configx", 2);
    start(flash, 5);
    end(flash, 4, 1234);
}

fn attach<S: NdlDataStorage>(list: &mut List, flash: &mut S, key: &str) -> Handle {
    let mut node = Node::new(key, SimpleTable);
    node.begin_attach(list).unwrap();
    assert!(list.process_reads(flash).is_ok());
    node.finish_attach(list).unwrap()
}

fn value_read<S: NdlDataStorage>(flash: &mut S, key: &str) -> u64 {
    let mut list = List::new(99);
    attach(&mut list, flash, key).load(&list).data
}

/// The sequence numbers of the records that a storage begins with a Start element.
fn started(flash: &TestStorage) -> Vec<u32> {
    flash
        .items
        .iter()
        .filter_map(|item| match &item.elem {
            Some(TestElem::Start { seq_no }) => Some(seq_no.get()),
            _ => None,
        })
        .collect()
}

#[test]
fn first_read_fails_with_test_storage() {
    let mut flash = TestStorage::default();
    // Add a valid set of records...
    add_record(&mut flash, 5, [13, 14, 15]);
    // But ensure that the underlying storage will ALWAYS return an error
    flash.forced_error = Some(TestStorageError::FakeBadRead);

    let mut list = List::new(1);
    let mut node_a = Node::new("test/config1", SimpleTable);
    node_a.begin_attach(&mut list).unwrap();

    // Attach not done...
    assert!(node_a.finish_attach(&mut list).is_none());

    // Do a process_reads, make sure it fails
    let res = list.process_reads(&mut flash);
    assert!(matches!(
        res,
        Err(LoadStoreError::FlashRead(TestStorageError::FakeBadRead))
    ));

    // Attach not done...
    assert!(node_a.finish_attach(&mut list).is_none());

    // Clear the error, clear the storage as well
    flash.forced_error = None;
    flash.items.clear();

    // Do a process_reads, make sure it succeeds
    list.process_reads(&mut flash).unwrap();

    // Attach IS done...
    let hdl = node_a.finish_attach(&mut list).unwrap();
    assert_eq!(hdl.load(&list), SimpleConfig::default());
}

/// Two nodes that are read, changed and written. Then the storage is cleared.
fn list_of_a_cleared_storage() -> (List, Handle, Handle, TestStorage) {
    let mut flash = TestStorage::default();
    // Add a valid set of records...
    add_record(&mut flash, 5, [13, 14, 15]);

    // Do our normal attach for two of the three items...
    let mut list = List::new(1);
    let mut node_a = Node::new("test/config1", SimpleTable);
    let mut node_b = Node::new("test/config2", SimpleTable);
    node_a.begin_attach(&mut list).unwrap();
    node_b.begin_attach(&mut list).unwrap();

    // Attach not done...
    assert!(node_a.finish_attach(&mut list).is_none());

    // Do a process_reads, make sure it succeeds
    list.process_reads(&mut flash).unwrap();

    // Attach IS done...
    let mut hdl_a = node_a.finish_attach(&mut list).unwrap();
    assert_eq!(hdl_a.load(&list), SimpleConfig { data: 13 });
    hdl_a.write(&mut list, &SimpleConfig { data: 33 }).unwrap();
    let mut hdl_b = node_b.finish_attach(&mut list).unwrap();
    assert_eq!(hdl_b.load(&list), SimpleConfig { data: 14 });
    hdl_b.write(&mut list, &SimpleConfig { data: 44 }).unwrap();

    let mut buf = [0u8; 4096];
    list.process_garbage(&mut flash).unwrap();
    list.process_writes(&mut flash, &mut buf).unwrap();

    // oh no everything has gone terribly wrong, reset everything
    (list, hdl_a, hdl_b, TestStorage::default())
}

#[test]
fn bad_with_test_storage() {
    let (mut list, _hdl_a, _hdl_b, mut flash) = list_of_a_cleared_storage();
    // the list still believes in what it knows of the storage
    let mut node_c = Node::new("test/config3", SimpleTable);
    node_c.begin_attach(&mut list).unwrap();
    assert_eq!(
        list.process_reads(&mut flash).unwrap_err(),
        LoadStoreError::AppError(Error::InconsistentFlash)
    );
}

#[test]
fn reset_cache_works_with_test_storage() {
    let (mut list, hdl_a, hdl_b, mut flash) = list_of_a_cleared_storage();
    list.reset_cache();

    let mut node_c = Node::new("test/config3", SimpleTable);
    node_c.begin_attach(&mut list).unwrap();

    // process reads still works to hydrate the newest item
    list.process_reads(&mut flash).unwrap();

    // Note: we get default, not 15, because we reset the TestStorage!
    let hdl_c = node_c.finish_attach(&mut list).unwrap();
    assert_eq!(hdl_c.load(&list), SimpleConfig::default());
    assert_eq!(hdl_b.load(&list), SimpleConfig { data: 44 });
    assert_eq!(hdl_a.load(&list), SimpleConfig { data: 33 });
}

/// A storage in which two good records stand among many bad elements.
fn stressed() -> TestStorage {
    let mut flash = TestStorage::default();
    // add a bunch of bad elements
    add_rubbish(&mut flash);
    // add one that is ALMOST good but with a bad CRC
    add_record(&mut flash, 5, [3, 4, 5]);
    spoil_crc(&mut flash);
    // add a good record, aliases with the almost-good item!
    add_record(&mut flash, 5, [13, 14, 15]);
    // Add another bad item
    add_record(&mut flash, 6, [23, 24, 25]);
    spoil_crc(&mut flash);
    // add a bunch of bad elements
    add_rubbish(&mut flash);
    // add a good record, aliases with the almost-good item!
    add_record(&mut flash, 6, [33, 34, 35]);
    // and finally a bunch more bad elements
    add_rubbish(&mut flash);
    flash
}

#[test]
fn bad_gc_stress() {
    let mut flash = stressed();
    let mut list = List::new(1);
    let node_a = attach(&mut list, &mut flash, "test/config1");
    let node_b = attach(&mut list, &mut flash, "test/config2");
    let node_c = attach(&mut list, &mut flash, "test/config3");

    assert_eq!(node_a.load(&list).data, 33);
    assert_eq!(node_b.load(&list).data, 34);
    assert_eq!(node_c.load(&list).data, 35);

    // the initial gc leaves the two good records, as they were
    list.process_garbage(&mut flash).unwrap();
    let mut good = TestStorage::default();
    add_record(&mut good, 5, [13, 14, 15]);
    add_record(&mut good, 6, [33, 34, 35]);
    assert_eq!(
        flash.items.iter().map(|i| &i.elem).collect::<Vec<_>>(),
        good.items.iter().map(|i| &i.elem).collect::<Vec<_>>()
    );
    let ctrs: Vec<u64> = flash.items.iter().map(|i| i.ctr).collect();
    assert_eq!(ctrs, [10, 11, 12, 13, 14, 25, 26, 27, 28, 29]);

    // and what is read is the same
    assert_eq!(value_read(&mut flash, "test/config1"), 33);
}

fn attach_test(
    list: &mut StorageList<TestConfig, TestTable, 3>,
    flash: &mut TestStorage,
    key: &str,
) -> StorageListNodeHandle<TestConfig, TestTable> {
    let mut node = StorageListNode::new(key, TestTable);
    node.begin_attach(list).unwrap();
    list.process_reads(flash).unwrap();
    list.process_garbage(flash).unwrap();
    node.finish_attach(list).unwrap()
}

fn flush(list: &mut StorageList<TestConfig, TestTable, 3>, flash: &mut TestStorage) {
    let mut buf = [0u8; 4096];
    assert!(list.needs_write());
    list.process_writes(flash, &mut buf).unwrap();
    list.process_garbage(flash).unwrap();
}

#[test]
fn test_read_clean_state() {
    let mut flash = TestStorage::default();
    let mut list = StorageList::new(1);
    let mut handle = attach_test(&mut list, &mut flash, "test/config");
    let test_config = TestConfig {
        value: 42,
        truth: false,
        optional_truth: Some(true),
    };
    handle.write(&mut list, &test_config).unwrap();
    flush(&mut list, &mut flash);

    // Create new list and node to simulate restart
    let mut list2 = StorageList::new(2);
    let handle2 = attach_test(&mut list2, &mut flash, "test/config");
    assert_eq!(
        handle2.load(&list2),
        test_config,
        "Loaded config should match test_config"
    );
}

#[test]
fn test_read_clean_state_new_config() {
    let mut flash = TestStorage::default();
    let mut list = StorageList::new(1);
    let mut handle = attach_test(&mut list, &mut flash, "test/config1");
    let test_config = TestConfig {
        value: 42,
        truth: false,
        optional_truth: Some(true),
    };
    handle.write(&mut list, &test_config).unwrap();
    flush(&mut list, &mut flash);

    // Create new list and nodes to simulate restart
    let mut list2 = StorageList::new(2);
    let handle1 = attach_test(&mut list2, &mut flash, "test/config1");
    let handle2 = attach_test(&mut list2, &mut flash, "test/config2");
    assert_eq!(
        handle1.load(&list2),
        test_config,
        "Loaded config should match the test_config"
    );
    assert_eq!(
        handle2.load(&list2),
        TestConfig::default(),
        "Loaded config should match default config"
    );
}

#[test]
fn test_read_interrupted_write() {
    let mut flash = TestStorage::default();
    let mut list = StorageList::new(1);
    let mut handle1 = attach_test(&mut list, &mut flash, "test/config1");
    let mut handle2 = attach_test(&mut list, &mut flash, "test/config2");
    let test_config1 = TestConfig {
        value: 1,
        truth: false,
        optional_truth: Some(false),
    };
    let test_config2 = TestConfig {
        value: 2,
        truth: false,
        optional_truth: Some(true),
    };
    let test_config3 = TestConfig {
        value: 3,
        truth: true,
        optional_truth: Some(false),
    };
    let test_config4 = TestConfig {
        value: 4,
        truth: true,
        optional_truth: Some(true),
    };
    handle1.write(&mut list, &test_config1).unwrap();
    handle2.write(&mut list, &test_config2).unwrap();
    flush(&mut list, &mut flash);

    handle1.write(&mut list, &test_config3).unwrap();
    handle2.write(&mut list, &test_config4).unwrap();
    flush(&mut list, &mut flash);

    // Corrupt an item from write record 2
    let at = flash
        .items
        .iter()
        .position(|item| item.elem == Some(TestElem::Start { seq_no: seq(2) }))
        .unwrap();
    match &mut flash.items[at + 1].elem {
        Some(TestElem::Data { data }) => data[3] = 0xFF,
        _ => panic!("no data behind the start"),
    }

    // Create new list and nodes to simulate restart
    let mut list2 = StorageList::new(2);
    let handle1 = attach_test(&mut list2, &mut flash, "test/config1");
    let handle2 = attach_test(&mut list2, &mut flash, "test/config2");
    assert_eq!(
        handle1.load(&list2),
        test_config1,
        "Loaded config1 should match test_config"
    );
    assert_eq!(
        handle2.load(&list2),
        test_config2,
        "Loaded config1 should match test_config"
    );
}

/// What is left of a write at each point at which the power can fail is no record.
#[test]
fn write_that_was_cut_off_is_ignored() {
    for pushed in 0..5 {
        let mut flash = TestStorage::default();
        add_record(&mut flash, 1, [13, 14, 15]);
        add_record(&mut flash, 2, [23, 24, 25]);
        flash.items.truncate(5 + pushed);
        assert_eq!(value_read(&mut flash, "test/config2"), 14);
    }
    let mut flash = TestStorage::default();
    add_record(&mut flash, 1, [13, 14, 15]);
    add_record(&mut flash, 2, [23, 24, 25]);
    assert_eq!(value_read(&mut flash, "test/config2"), 24);
}

/// A record spoils no other.
#[test]
fn corruption_stays_in_its_record() {
    for spoiled in 0..5 {
        let mut flash = TestStorage::default();
        add_record(&mut flash, 1, [13, 14, 15]);
        add_record(&mut flash, 2, [23, 24, 25]);
        add_record(&mut flash, 3, [33, 34, 35]);
        flash.items[10 + spoiled].elem = None;
        assert_eq!(value_read(&mut flash, "test/config1"), 23);
        flash.items[5 + spoiled].elem = None;
        assert_eq!(value_read(&mut flash, "test/config1"), 13);
    }
}

/// A value that cannot be decoded is as if it were not there.
#[test]
fn undecodable_value_gives_the_default() {
    let mut flash = TestStorage::default();
    let mut crc = Crc32::new();
    start(&mut flash, 1);
    let mut data = vec![1];
    data.extend(minicbor::to_vec("test/config1").unwrap());
    data.push(0xFF);
    crc.update(&data[1..]);
    push(&mut flash, TestElem::Data { data });
    crc.update(&add_data_elem(&mut flash, "test/config2", 14));
    end(&mut flash, 1, crc.finalize());
    assert_eq!(value_read(&mut flash, "test/config1"), 0);
    assert_eq!(value_read(&mut flash, "test/config2"), 14);
}

/// A collection that is cut off at any point has lost nothing of what is kept.
#[test]
fn interrupted_collection_loses_nothing() {
    for steps in 0..40 {
        let mut flash = Shaky::new(stressed());
        let mut list = List::new(1);
        attach(&mut list, &mut flash, "test/config1");
        flash.invalidations = steps;
        let done = list.process_garbage(&mut flash).is_ok();
        // fifteen stray elements, and two records with a bad CRC
        assert_eq!(done, steps >= 25);
        assert_eq!(value_read(&mut flash.flash, "test/config1"), 33);
        assert_eq!(value_read(&mut flash.flash, "test/config2"), 34);
        if !done {
            // nothing is known of the storage until it has been read again
            let mut buf = [0u8; 64];
            assert!(matches!(
                list.process_writes(&mut flash, &mut buf),
                Err(LoadStoreError::AppError(Error::NeedsFirstRead))
            ));
        }
    }
}

/// A storage that fails after some steps, or drops what is pushed to it
struct Shaky {
    flash: TestStorage,
    pushes: usize,
    invalidations: usize,
    drops: bool,
}

impl Shaky {
    fn new(flash: TestStorage) -> Self {
        Shaky {
            flash,
            pushes: 1000,
            invalidations: 1000,
            drops: false,
        }
    }
}

impl NdlDataStorage for Shaky {
    type Iter = TestStorageIter;
    type Item = TestStorageItemNode;
    type Error = TestStorageError;

    fn iter_elems(&mut self) -> Result<TestStorageIter, TestStorageError> {
        self.flash.iter_elems()
    }

    fn next(
        &mut self,
        iter: &mut TestStorageIter,
    ) -> Result<Option<TestStorageItemNode>, TestStorageError> {
        self.flash.next(iter)
    }

    fn push(&mut self, data: &Elem<'_>) -> Result<usize, TestStorageError> {
        if self.pushes == 0 {
            return Err(TestStorageError::FakeBadRead);
        }
        self.pushes -= 1;
        if self.drops && matches!(data, Elem::Data { .. }) {
            return Ok(0);
        }
        self.flash.push(data)
    }

    fn invalidate(
        &mut self,
        iter: &mut TestStorageIter,
        item: TestStorageItemNode,
    ) -> Result<(), TestStorageError> {
        if self.invalidations == 0 {
            return Err(TestStorageError::FakeBadRead);
        }
        self.invalidations -= 1;
        self.flash.invalidate(iter, item)
    }

    fn max_elem_size() -> usize {
        TestStorage::max_elem_size()
    }
}

/// A list with one node, that has been read and changed, on a storage with five items.
fn changed(storage: &mut Shaky) -> (List, Handle) {
    let mut list = List::new(1);
    let mut handle = attach(&mut list, storage, "test/config1");
    list.process_garbage(storage).unwrap();
    handle.write(&mut list, &SimpleConfig { data: 7 }).unwrap();
    (list, handle)
}

#[test]
fn failed_push_spends_the_number_of_a_begun_record() {
    let mut buf = [0u8; 64];
    for pushes in 0..3 {
        let mut flash = TestStorage::default();
        add_record(&mut flash, 6, [13, 14, 15]);
        let mut storage = Shaky::new(flash);
        let (mut list, handle) = changed(&mut storage);
        storage.pushes = pushes;
        assert!(matches!(
            list.process_writes(&mut storage, &mut buf),
            Err(LoadStoreError::FlashWrite(TestStorageError::FakeBadRead))
        ));
        assert_eq!(storage.flash.items.len(), 5 + pushes);
        // what was stored is still what is read
        assert_eq!(value_read(&mut storage, "test/config1"), 13);
        assert_eq!(handle.load(&list).data, 7);

        // the next attempt does not run into what is left of the first
        storage.pushes = 3;
        list.process_writes(&mut storage, &mut buf).unwrap();
        assert_eq!(value_read(&mut storage, "test/config1"), 7);
        let expected: &[u32] = if pushes == 0 { &[6, 7] } else { &[6, 7, 8] };
        assert_eq!(started(&storage.flash), expected);
    }
}

#[test]
fn dropped_data_fails_the_verification() {
    let mut buf = [0u8; 64];
    let mut flash = TestStorage::default();
    add_record(&mut flash, 6, [13, 14, 15]);
    let mut storage = Shaky::new(flash);
    let (mut list, _handle) = changed(&mut storage);
    storage.drops = true;
    assert!(matches!(
        list.process_writes(&mut storage, &mut buf),
        Err(LoadStoreError::WriteVerificationFailed)
    ));
    // what is left is not a record
    assert_eq!(value_read(&mut storage, "test/config1"), 13);
    storage.drops = false;
    list.process_writes(&mut storage, &mut buf).unwrap();
    assert_eq!(value_read(&mut storage, "test/config1"), 7);
    assert_eq!(started(&storage.flash), [6, 7, 8]);
}

#[test]
fn small_buffer_fails_the_serialization() {
    let mut storage = Shaky::new(TestStorage::default());
    let (mut list, _handle) = changed(&mut storage);
    // a header, a key with its head, an array of one small integer
    let needed = 1 + 13 + 2;
    let mut buf = vec![0u8; needed - 1];
    assert!(matches!(
        list.process_writes(&mut storage, &mut buf),
        Err(LoadStoreError::AppError(Error::Serialization))
    ));
    let mut buf = vec![0u8; needed];
    let counters = list.process_writes(&mut storage, &mut buf).unwrap();
    assert_eq!(counters.current_bytes_written, 5 + needed + 9);
    // the read-back has read what was left of the first attempt, too
    assert_eq!(counters.total_bytes_read, 5 + 5 + needed + 9);
}

#[test]
fn writes_have_to_wait_for_a_read_and_a_collection() {
    let mut buf = [0u8; 64];
    let mut flash = TestStorage::default();
    add_record(&mut flash, 1, [13, 14, 15]);
    let mut list = List::new(1);
    assert_eq!(
        list.process_writes(&mut flash, &mut buf),
        Err(LoadStoreError::AppError(Error::NeedsFirstRead))
    );
    let mut handle = attach(&mut list, &mut flash, "test/config1");
    assert_eq!(
        list.process_writes(&mut flash, &mut buf),
        Err(LoadStoreError::AppError(Error::NeedsGarbageCollect))
    );
    list.process_garbage(&mut flash).unwrap();
    handle.write(&mut list, &SimpleConfig { data: 1 }).unwrap();

    // a node that still waits for its value holds the write up
    let mut late = Node::new("test/config2", SimpleTable);
    late.begin_attach(&mut list).unwrap();
    assert_eq!(
        list.process_writes(&mut flash, &mut buf),
        Err(LoadStoreError::AppError(Error::NeedsFirstRead))
    );
    list.process_reads(&mut flash).unwrap();
    list.process_writes(&mut flash, &mut buf).unwrap();
    assert_eq!(started(&flash), [1, 2]);

    // nothing has changed since: there is nothing to write
    list.process_garbage(&mut flash).unwrap();
    let counters = list.process_writes(&mut flash, &mut buf).unwrap();
    assert_eq!(counters.current_bytes_written, 0);
    assert_eq!(started(&flash), [1, 2]);

    // after a write comes a collection
    handle.write(&mut list, &SimpleConfig { data: 2 }).unwrap();
    list.process_writes(&mut flash, &mut buf).unwrap();
    handle.write(&mut list, &SimpleConfig { data: 3 }).unwrap();
    assert_eq!(
        list.process_writes(&mut flash, &mut buf),
        Err(LoadStoreError::AppError(Error::NeedsGarbageCollect))
    );
}

#[test]
fn writing_a_node_without_a_value_is_refused() {
    let mut flash = TestStorage::default();
    let mut list = List::new(1);
    let mut handle = attach(&mut list, &mut flash, "test/config1");
    // the list is made anew, and its node waits for a value
    let mut list = List::new(1);
    let mut node = Node::new("test/config1", SimpleTable);
    node.begin_attach(&mut list).unwrap();
    assert_eq!(
        handle.write(&mut list, &SimpleConfig { data: 1 }),
        Err(Error::InvalidState("test/config1".to_string(), State::Initial))
    );
    list.process_reads(&mut flash).unwrap();
    assert_eq!(
        handle.write(&mut list, &SimpleConfig { data: 1 }),
        Err(Error::InvalidState("test/config1".to_string(), State::NonResident))
    );
    assert!(!list.needs_write());
    node.finish_attach(&mut list).unwrap();
    assert_eq!(handle.write(&mut list, &SimpleConfig { data: 1 }), Ok(()));
    assert!(list.needs_write());
}

#[test]
fn counters_of_reads_and_collections() {
    let mut flash = TestStorage::default();
    add_record(&mut flash, 1, [13, 14, 15]);
    add_rubbish(&mut flash);
    let data = 1 + 13 + 2;
    let record = 5 + 3 * data + 9;
    let rubbish = data + 5 + data + 5 + 9;
    let mut list = List::new(1);
    let read = list.process_reads(&mut flash).unwrap();
    // one pass over all items, and one over the record
    assert_eq!(read.total_bytes_read, record + rubbish + record);
    assert_eq!(read.current_bytes_read, 3 * data);
    // the storage is scanned only once
    let read = list.process_reads(&mut flash).unwrap();
    assert_eq!(read.total_bytes_read, record);

    let collected = list.process_garbage(&mut flash).unwrap();
    assert_eq!(collected.total_bytes_read, record + rubbish + record);
    assert_eq!(collected.post_collection_bytes_read, record);
    assert_eq!(collected.total_bytes_popped, rubbish);
    let collected = list.process_garbage(&mut flash).unwrap();
    assert_eq!(collected.total_bytes_read, 0);
    assert_eq!(collected.total_bytes_popped, 0);
}

#[test]
fn node_size_is_checked_before_a_write() {
    assert!(TestStorage::check_node_size(
        "test/config1",
        &SimpleTable,
        &SimpleConfig { data: 1 }
    ));
    let key = |n: usize| "k".repeat(n);
    // a header, a key with a head of three bytes, and two bytes of value
    assert!(TestStorage::check_node_size(
        &key(4096 - 1 - 3 - 2),
        &SimpleTable,
        &SimpleConfig { data: 1 }
    ));
    assert!(!TestStorage::check_node_size(
        &key(4096 - 1 - 3 - 1),
        &SimpleTable,
        &SimpleConfig { data: 1 }
    ));
}

/// The newest record is the one with the highest number, wherever it stands.
#[test]
fn highest_number_wins() {
    let mut flash = TestStorage::default();
    add_record(&mut flash, 9, [93, 94, 95]);
    add_record(&mut flash, 2, [23, 24, 25]);
    assert_eq!(value_read(&mut flash, "test/config3"), 95);
    // and the next write comes behind it
    let mut list = List::new(1);
    let mut handle = attach(&mut list, &mut flash, "test/config3");
    list.process_garbage(&mut flash).unwrap();
    handle.write(&mut list, &SimpleConfig { data: 5 }).unwrap();
    let mut buf = [0u8; 64];
    list.process_writes(&mut flash, &mut buf).unwrap();
    assert_eq!(started(&flash), [9, 2, 10]);
}

#[test]
fn items_tell_their_length() {
    let mut flash = TestStorage::default();
    add_record(&mut flash, 1, [13, 14, 15]);
    flash.items[1].elem = None;
    let mut iter = flash.iter_elems().unwrap();
    let mut lens = Vec::new();
    while let Some(item) = flash.next(&mut iter).unwrap() {
        lens.push((item.data().is_some(), item.len()));
    }
    assert_eq!(
        lens,
        [(true, 5), (false, 0), (true, 16), (true, 16), (true, 9)]
    );
}

/// A record holds at least one data element. Without one it is ignored.
#[test]
fn record_without_data_is_ignored() {
    let mut flash = TestStorage::default();
    start(&mut flash, 1);
    end(&mut flash, 1, Crc32::new().finalize());
    let mut list = List::new(1);
    list.process_reads(&mut flash).unwrap();
    assert!(list.latest().is_none());

    let mut flash = TestStorage::default();
    add_record(&mut flash, 1, [13, 14, 15]);
    start(&mut flash, 2);
    end(&mut flash, 2, Crc32::new().finalize());
    let mut list = List::new(1);
    let mut handle = attach(&mut list, &mut flash, "test/config1");
    assert_eq!(handle.load(&list).data, 13);
    assert_eq!(list.latest().unwrap().seq.get(), 1);

    // it is collected, and its number is not used again
    list.process_garbage(&mut flash).unwrap();
    assert_eq!(started(&flash), [1]);
    handle.write(&mut list, &SimpleConfig { data: 7 }).unwrap();
    list.process_writes(&mut flash, &mut [0u8; 64]).unwrap();
    assert_eq!(started(&flash), [1, 3]);
}

/// A list whose nodes hold no values has nothing to write, whatever the storage holds.
#[test]
fn list_without_values_writes_no_record() {
    let mut flash = TestStorage::default();
    let mut list = List::new(1);
    let mut node = Node::new("test/config1", SimpleTable);
    node.begin_attach(&mut list).unwrap();
    list.process_reads(&mut flash).unwrap();
    let counters = list.process_writes(&mut flash, &mut [0u8; 64]).unwrap();
    assert_eq!(counters.current_bytes_written, 0);
    assert!(flash.items.is_empty());

    // once the node has its default, the list is written
    node.finish_attach(&mut list).unwrap();
    list.process_writes(&mut flash, &mut [0u8; 64]).unwrap();
    assert_eq!(started(&flash), [1]);
}

/// The number of a record that was interrupted is not used again.
#[test]
fn number_of_an_interrupted_record_is_skipped() {
    let mut flash = TestStorage::default();
    add_record(&mut flash, 6, [13, 14, 15]);
    start(&mut flash, 7);
    add_data_elem(&mut flash, "test/config1", 23);
    let mut list = List::new(1);
    let mut handle = attach(&mut list, &mut flash, "test/config1");
    assert_eq!(handle.load(&list).data, 13);
    list.process_garbage(&mut flash).unwrap();
    handle.write(&mut list, &SimpleConfig { data: 7 }).unwrap();
    list.process_writes(&mut flash, &mut [0u8; 64]).unwrap();
    assert_eq!(started(&flash), [6, 8]);
    assert_eq!(list.latest().unwrap().seq.get(), 8);
    assert_eq!(value_read(&mut flash, "test/config1"), 7);
}

/// An interrupted first record does not hold up those that follow.
#[test]
fn interrupted_first_record_holds_nothing_up() {
    let mut flash = TestStorage::default();
    start(&mut flash, 1);
    add_data_elem(&mut flash, "test/config1", 23);
    let mut list = List::new(1);
    let mut handle = attach(&mut list, &mut flash, "test/config1");
    assert_eq!(handle.load(&list).data, 0);
    handle.write(&mut list, &SimpleConfig { data: 7 }).unwrap();
    list.process_writes(&mut flash, &mut [0u8; 64]).unwrap();
    assert_eq!(started(&flash), [1, 2]);
    assert_eq!(value_read(&mut flash, "test/config1"), 7);
    list.process_garbage(&mut flash).unwrap();
    assert_eq!(started(&flash), [2]);
    assert_eq!(value_read(&mut flash, "test/config1"), 7);
}

/// A Start element with the highest number leaves none for a record behind it.
#[test]
fn highest_number_is_the_last() {
    let mut flash = TestStorage::default();
    start(&mut flash, u32::MAX - 1);
    let mut list = List::new(1);
    attach(&mut list, &mut flash, "test/config1");
    list.process_writes(&mut flash, &mut [0u8; 64]).unwrap();
    assert_eq!(started(&flash), [u32::MAX - 1, u32::MAX]);
    assert!(matches!(
        list.process_writes(&mut flash, &mut [0u8; 64]),
        Err(LoadStoreError::AppError(Error::NeedsFirstRead))
    ));
}

/// A write that was cut off inside an element is ignored.
#[test]
fn torn_write_is_ignored() {
    for elems in 0..5 {
        let mut flash = TestStorage::default();
        add_record(&mut flash, 1, [13, 14, 15]);
        add_record(&mut flash, 2, [23, 24, 25]);
        flash.items.truncate(5 + elems);
        let ctr = flash.next_ctr();
        flash.items.push(TestItem { ctr, elem: None });
        assert_eq!(value_read(&mut flash, "test/config1"), 13);
        assert_eq!(value_read(&mut flash, "test/config3"), 15);
    }
}

/// A failed collection reports the kind of access that failed.
#[test]
fn failed_collection_tells_reads_from_writes() {
    let mut flash = Shaky::new(stressed());
    let mut list = List::new(1);
    attach(&mut list, &mut flash, "test/config1");
    flash.invalidations = 0;
    assert!(matches!(
        list.process_garbage(&mut flash),
        Err(LoadStoreError::FlashWrite(TestStorageError::FakeBadRead))
    ));

    list.process_reads(&mut flash).unwrap();
    flash.flash.forced_error = Some(TestStorageError::FakeBadRead);
    assert!(matches!(
        list.process_garbage(&mut flash),
        Err(LoadStoreError::FlashRead(TestStorageError::FakeBadRead))
    ));
    assert!(matches!(
        list.process_writes(&mut flash, &mut [0u8; 64]),
        Err(LoadStoreError::AppError(Error::NeedsFirstRead))
    ));
}

/// While an error is forced, every access fails with it, and nothing is written or spent.
#[test]
fn forced_error_fails_every_access() {
    let mut flash = TestStorage::default();
    add_record(&mut flash, 6, [13, 14, 15]);
    let mut storage = Shaky::new(flash);
    let (mut list, _handle) = changed(&mut storage);
    let mut iter = storage.iter_elems().unwrap();
    let item = storage.next(&mut iter).unwrap().unwrap();
    let forced = TestStorageError::FakeBadRead;
    storage.flash.forced_error = Some(forced);
    assert_eq!(storage.flash.iter_elems().err(), Some(forced));
    assert_eq!(storage.flash.next(&mut iter).err(), Some(forced));
    assert_eq!(storage.flash.invalidate(&mut iter, item), Err(forced));
    assert!(matches!(
        list.process_writes(&mut storage, &mut [0u8; 64]),
        Err(LoadStoreError::FlashWrite(TestStorageError::FakeBadRead))
    ));
    assert_eq!(storage.flash.items.len(), 5);

    storage.flash.forced_error = None;
    list.process_writes(&mut storage, &mut [0u8; 64]).unwrap();
    assert_eq!(started(&storage.flash), [6, 7]);
}

/// What a list holds when nothing is left to write, a new list loads, whatever has happened
/// before.
#[test]
fn new_list_loads_all_values() {
    let mut buf = [0u8; 64];
    let mut storage = Shaky::new(TestStorage::default());
    let mut list = List::new(1);
    let mut a = attach(&mut list, &mut storage, "test/config1");
    let mut b = attach(&mut list, &mut storage, "test/config2");
    for round in 0..12u64 {
        a.write(&mut list, &SimpleConfig { data: round }).unwrap();
        if round % 3 == 0 {
            b.write(&mut list, &SimpleConfig { data: 100 + round }).unwrap();
        }
        // now and then a write or a collection is cut off
        storage.pushes = if round % 4 == 1 { 2 } else { 1000 };
        storage.invalidations = if round % 4 == 2 { 1 } else { 1000 };
        let mut done = false;
        while !done {
            if list.process_garbage(&mut storage).is_err() {
                storage.invalidations = 1000;
                list.process_reads(&mut storage).unwrap();
                continue;
            }
            done = list.process_writes(&mut storage, &mut buf).is_ok();
            storage.pushes = 1000;
        }
        assert_eq!(value_read(&mut storage, "test/config1"), round);
        assert_eq!(value_read(&mut storage, "test/config2"), 100 + round / 3 * 3);
        // a key that was not written
        assert_eq!(value_read(&mut storage, "test/config3"), 0);
    }
    assert_eq!(a.load(&list).data, 11);
    assert_eq!(b.load(&list).data, 109);

    // where nothing is to be written, the values are in the storage
    list.process_garbage(&mut storage).unwrap();
    let counters = list.process_writes(&mut storage, &mut buf).unwrap();
    assert_eq!(counters.current_bytes_written, 0);
    assert_eq!(value_read(&mut storage, "test/config1"), 11);
    assert_eq!(value_read(&mut storage, "test/config2"), 109);
}

/// A node is handed out only once it has been read.
#[test]
fn node_has_been_read_after_a_read() {
    let mut flash = TestStorage::default();
    let mut list = List::new(1);
    let mut node = Node::new("test/config1", SimpleTable);
    node.begin_attach(&mut list).unwrap();
    assert!(!node.has_been_read(&list));
    list.process_reads(&mut flash).unwrap();
    assert!(node.has_been_read(&list));
    assert!(node.finish_attach(&mut list).is_some());
}
