use cfg_noodle::elem::Elem;
use cfg_noodle::error::LoadStoreError;
use cfg_noodle::flash::{frame, max_elem_size, size_with_overhead, HalfElem};
use cfg_noodle::node_handle::{StorageListNode, StorageListNodeHandle};
use cfg_noodle::storage::{NdlDataStorage, NdlElemIterNode};
use cfg_noodle::storage_list::StorageList;
use cfg_noodle::storage_node::VTable;
use embassy_futures::block_on;
use minicbor::encode::write::Cursor;
use sequential_storage::cache::NoCache;
use sequential_storage::mock_flash::{MockFlashBase, MockFlashError, WriteCountCheck};
use sequential_storage::queue::{QueueConfig, QueueStorage};

const WORD: usize = 16;
const PAGE: usize = 16 * 256;

type Base = MockFlashBase<10, 16, 256>;

/// A queue in a flash in memory
struct MockFlash {
    queue: QueueStorage<Base, NoCache>,
}

struct MockNode {
    bytes: Vec<u8>,
    half: Option<HalfElem>,
}

fn item_size(len: usize) -> usize {
    let overhead = QueueStorage::<Base, NoCache>::item_overhead_size() as usize;
    size_with_overhead(len, overhead, WORD, WORD)
}

impl NdlElemIterNode for MockNode {
    fn data(&self) -> Option<Elem<'_>> {
        self.half?.elem(&self.bytes)
    }

    fn len(&self) -> usize {
        item_size(self.bytes.len())
    }
}

impl MockFlash {
    /// Reads the item at an index, and takes it out where that is asked for.
    fn visit(
        &mut self,
        at: usize,
        pop: bool,
    ) -> Result<Option<MockNode>, sequential_storage::Error<MockFlashError>> {
        let mut buf = [0u8; 4096];
        block_on(async {
            let mut iter = self.queue.iter().await?;
            for _ in 0..at {
                if iter.next(&mut buf).await?.is_none() {
                    return Ok(None);
                }
            }
            match iter.next(&mut buf).await? {
                None => Ok(None),
                Some(entry) => {
                    let bytes = entry.to_vec();
                    if pop {
                        entry.pop().await?;
                    }
                    let half = HalfElem::from_bytes(&bytes);
                    Ok(Some(MockNode { bytes, half }))
                }
            }
        })
    }
}

impl NdlDataStorage for MockFlash {
    type Iter = usize;
    type Item = MockNode;
    type Error = sequential_storage::Error<MockFlashError>;

    fn iter_elems(&mut self) -> Result<usize, Self::Error> {
        block_on(self.queue.iter())?;
        Ok(0)
    }

    fn next(&mut self, iter: &mut usize) -> Result<Option<MockNode>, Self::Error> {
        let node = self.visit(*iter, false)?;
        if node.is_some() {
            *iter += 1;
        }
        Ok(node)
    }

    fn push(&mut self, data: &Elem<'_>) -> Result<usize, Self::Error> {
        let bytes = frame(data);
        block_on(self.queue.push(&bytes, false))?;
        Ok(item_size(bytes.len()))
    }

    fn invalidate(&mut self, iter: &mut usize, _item: MockNode) -> Result<(), Self::Error> {
        self.visit(*iter - 1, true)?;
        *iter -= 1;
        Ok(())
    }

    fn max_elem_size() -> usize {
        let overhead = QueueStorage::<Base, NoCache>::item_overhead_size() as usize;
        max_elem_size(PAGE, WORD, WORD, overhead)
    }
}

fn get_mock_flash() -> MockFlash {
    let mut flash = Base::new(WriteCountCheck::OnceOnly, None, true);
    flash.alignment_check = false;
    MockFlash {
        queue: QueueStorage::new(flash, QueueConfig::new(0x0000..0x1000), NoCache::new()),
    }
}

fn fill(flash: &mut MockFlash, byte: u8) {
    flash
        .queue
        .flash()
        .as_bytes_mut()
        .iter_mut()
        .for_each(|b| *b = byte);
}

#[derive(Debug, Clone, PartialEq)]
struct PositronConfig {
    up: u8,
    down: u16,
    strange: u32,
}

impl Default for PositronConfig {
    fn default() -> Self {
        Self {
            up: 10,
            down: 20,
            strange: 103,
        }
    }
}

/// Stands for a configuration as a CBOR array of three integers.
#[derive(Clone, Copy)]
struct PositronTable;

impl VTable<PositronConfig> for PositronTable {
    fn serialize(&self, t: &PositronConfig, buf: &mut [u8]) -> Result<usize, ()> {
        let mut e = minicbor::Encoder::new(Cursor::new(buf));
        e.array(3)
            .and_then(|e| e.u8(t.up))
            .and_then(|e| e.u16(t.down))
            .and_then(|e| e.u32(t.strange))
            .map_err(|_| ())?;
        Ok(e.into_writer().position())
    }

    fn deserialize(&self, buf: &[u8]) -> Result<PositronConfig, ()> {
        let mut d = minicbor::Decoder::new(buf);
        match d.array() {
            Ok(Some(3)) => Ok(PositronConfig {
                up: d.u8().map_err(|_| ())?,
                down: d.u16().map_err(|_| ())?,
                strange: d.u32().map_err(|_| ())?,
            }),
            _ => Err(()),
        }
    }

    fn encoded_len(&self, t: &PositronConfig) -> usize {
        1 + minicbor::len(t.up) + minicbor::len(t.down) + minicbor::len(t.strange)
    }
}

#[derive(Debug, Default, Clone, PartialEq)]
struct SimpleConfig {
    data: u64,
}

/// Stands for a configuration as a CBOR array of one integer.
#[derive(Clone, Copy)]
struct SimpleTable;

impl VTable<SimpleConfig> for SimpleTable {
    fn serialize(&self, t: &SimpleConfig, buf: &mut [u8]) -> Result<usize, ()> {
        let mut e = minicbor::Encoder::new(Cursor::new(buf));
        e.array(1).and_then(|e| e.u64(t.data)).map_err(|_| ())?;
        Ok(e.into_writer().position())
    }

    fn deserialize(&self, buf: &[u8]) -> Result<SimpleConfig, ()> {
        let mut d = minicbor::Decoder::new(buf);
        match d.array() {
            Ok(Some(1)) => Ok(SimpleConfig {
                data: d.u64().map_err(|_| ())?,
            }),
            _ => Err(()),
        }
    }

    fn encoded_len(&self, t: &SimpleConfig) -> usize {
        1 + minicbor::len(t.data)
    }
}

#[derive(Debug, Default, Clone, PartialEq)]
struct TestConfig {
    value: u32,
    truth: bool,
    optional_truth: Option<bool>,
}

/// Stands for a configuration as a CBOR array of three values.
#[derive(Clone, Copy)]
struct TestTable;

impl VTable<TestConfig> for TestTable {
    fn serialize(&self, t: &TestConfig, buf: &mut [u8]) -> Result<usize, ()> {
        let mut e = minicbor::Encoder::new(Cursor::new(buf));
        e.array(3)
            .and_then(|e| e.u32(t.value))
            .and_then(|e| e.bool(t.truth))
            .and_then(|e| e.encode(t.optional_truth))
            .map_err(|_| ())?;
        Ok(e.into_writer().position())
    }

    fn deserialize(&self, buf: &[u8]) -> Result<TestConfig, ()> {
        let mut d = minicbor::Decoder::new(buf);
        match d.array() {
            Ok(Some(3)) => Ok(TestConfig {
                value: d.u32().map_err(|_| ())?,
                truth: d.bool().map_err(|_| ())?,
                optional_truth: d.decode().map_err(|_| ())?,
            }),
            _ => Err(()),
        }
    }

    fn encoded_len(&self, t: &TestConfig) -> usize {
        1 + minicbor::len(t.value) + minicbor::len(t.truth) + minicbor::len(t.optional_truth)
    }
}

fn work<T, V: VTable<T>>(list: &mut StorageList<T, V, 3>, flash: &mut MockFlash) {
    let mut buf = [0u8; 4096];
    if list.needs_read() {
        list.process_reads(flash).unwrap();
        list.process_garbage(flash).unwrap();
    }
    if list.needs_write() {
        list.process_writes(flash, &mut buf).unwrap();
        list.process_garbage(flash).unwrap();
    }
}

fn attach(
    list: &mut StorageList<PositronConfig, PositronTable, 3>,
    flash: &mut MockFlash,
    key: &str,
) -> StorageListNodeHandle<PositronConfig, PositronTable> {
    let mut node = StorageListNode::new(key, PositronTable);
    node.begin_attach(list).unwrap();
    work(list, flash);
    node.finish_attach(list).unwrap()
}

/// Test that we can handle multiple nodes using sequential-storage
#[test]
fn storage_list_test_two_configs_seq_sto() {
    let mut flash = get_mock_flash();
    let mut list = StorageList::new(1);

    // Obtain a handle for the first config
    let mut config_handle = attach(&mut list, &mut flash, "positron/config1");
    // Obtain a handle for the second config. This should _not_ error!
    let _ = attach(&mut list, &mut flash, "positron/config2");

    // Load data for the first handle
    assert_eq!(config_handle.load(&list), PositronConfig::default());

    // Write a new config to first handle
    let new_config = PositronConfig {
        up: 15,
        down: 25,
        strange: 108,
    };
    config_handle.write(&mut list, &new_config).unwrap();
    work(&mut list, &mut flash);

    // Assert that the loaded value equals the written value
    assert_eq!(config_handle.load(&list), new_config);

    // and so does the value that another list reads
    let mut list = StorageList::new(2);
    let config_handle = attach(&mut list, &mut flash, "positron/config1");
    assert_eq!(config_handle.load(&list), new_config);
}

#[test]
fn with_mock_flash() {
    let mut flash = get_mock_flash();
    // Corrupt the flash, giving it all zeros
    fill(&mut flash, 0);

    let mut list = StorageList::<SimpleConfig, SimpleTable, 3>::new(1);
    let mut node_a = StorageListNode::new("test/config1", SimpleTable);
    node_a.begin_attach(&mut list).unwrap();

    // Attach not done...
    assert!(node_a.finish_attach(&mut list).is_none());

    // Do a process_reads, make sure it fails
    let res = list.process_reads(&mut flash);
    assert!(matches!(res, Err(LoadStoreError::FlashRead(_))));

    // Attach not done...
    assert!(node_a.finish_attach(&mut list).is_none());

    // Clear the error, clear the storage as well
    fill(&mut flash, 0xFF);

    // Do a process_reads, make sure it succeeds
    list.process_reads(&mut flash).unwrap();

    // Attach IS done...
    let hdl = node_a.finish_attach(&mut list).unwrap();
    assert_eq!(hdl.load(&list), SimpleConfig::default());
}

#[test]
fn test_read_from_empty_flash() {
    // Create flash but do not populate with any data
    let mut flash = get_mock_flash();
    let mut list = StorageList::<TestConfig, TestTable, 3>::new(1);
    let mut node = StorageListNode::new("test/config", TestTable);
    node.begin_attach(&mut list).unwrap();
    work(&mut list, &mut flash);

    // Should return default value
    let handle = node.finish_attach(&mut list).unwrap();
    assert_eq!(
        handle.load(&list),
        TestConfig::default(),
        "Loaded config should match default config"
    );
}

/// The sizes that the library computes are those that the queue uses.
#[test]
fn counters_tell_the_bytes_in_the_queue() {
    let mut flash = get_mock_flash();
    let mut list = StorageList::<SimpleConfig, SimpleTable, 3>::new(1);
    let mut node = StorageListNode::new("k", SimpleTable);
    node.begin_attach(&mut list).unwrap();
    let read = list.process_reads(&mut flash).unwrap();
    assert_eq!((read.total_bytes_read, read.current_bytes_read), (0, 0));
    list.process_garbage(&mut flash).unwrap();

    let before = block_on(flash.queue.space_left()).unwrap();
    node.finish_attach(&mut list).unwrap();
    let mut buf = [0u8; 64];
    let written = list.process_writes(&mut flash, &mut buf).unwrap();
    let after = block_on(flash.queue.space_left()).unwrap();
    // three items: each takes a header of one word and its data, padded to one word
    assert_eq!(written.current_bytes_written, 3 * 2 * WORD);
    assert_eq!((before - after) as usize, written.current_bytes_written);
    assert_eq!(written.total_bytes_read, 3 * 2 * WORD);
}

#[test]
fn largest_element_fits_in_a_page() {
    let largest = MockFlash::max_elem_size();
    assert_eq!(largest, 4096 - 2 * 16 - 16);
    let mut flash = get_mock_flash();
    let data = vec![1u8; largest];
    assert!(block_on(flash.queue.push(&data, false)).is_ok());
    let mut flash = get_mock_flash();
    let data = vec![1u8; largest + 1];
    assert!(block_on(flash.queue.push(&data, false)).is_err());
}
