use cfg_noodle::elem::SeqNo;
use cfg_noodle::node_handle::{StorageListNode, StorageListNodeHandle};
use cfg_noodle::storage_list::StorageList;
use cfg_noodle::storage_node::VTable;
use cfg_noodle::test_utils::{TestElem, TestItem, TestStorage};
use minicbor::encode::write::Cursor;

#[derive(Debug, Default, Clone, PartialEq)]
struct SimpleConfig {
    data: u64,
}

/// Stands for a configuration as a CBOR array of one integer.
#[derive(Clone, Copy)]
struct SimpleTable;

impl VTable<SimpleConfig> for SimpleTable {
    fn serialize(&self, t: &SimpleConfig, buf: &mut [u8]) -> Result<usize, ()> {
        let mut e = minicbor::Encoder::new(Cursor::new(buf));
        e.array(1).and_then(|e| e.u64(t.data)).map_err(|_| ())?;
        Ok(e.into_writer().position())
    }

    fn deserialize(&self, buf: &[u8]) -> Result<SimpleConfig, ()> {
        let mut d = minicbor::Decoder::new(buf);
        match d.array() {
            Ok(Some(1)) => Ok(SimpleConfig {
                data: d.u64().map_err(|_| ())?,
            }),
            _ => Err(()),
        }
    }

    fn encoded_len(&self, t: &SimpleConfig) -> usize {
        1 + minicbor::len(t.data)
    }
}

type Node = StorageListNode<SimpleConfig, SimpleTable>;
type Handle = StorageListNodeHandle<SimpleConfig, SimpleTable>;

/// A list, its storage, and what serves the one with the other.
struct Bench<const KEPT: usize> {
    list: StorageList<SimpleConfig, SimpleTable, KEPT>,
    flash: TestStorage,
}

impl<const KEPT: usize> Bench<KEPT> {
    fn new(id: usize, flash: TestStorage) -> Self {
        Bench {
            list: StorageList::new(id),
            flash,
        }
    }

    /// Serves what the list asks for, each time with a collection after it.
    fn work(&mut self) {
        let mut buf = [0u8; 4096];
        if self.list.needs_read() {
            self.list.process_reads(&mut self.flash).unwrap();
            self.list.process_garbage(&mut self.flash).unwrap();
        }
        if self.list.needs_write() {
            self.list
                .process_writes(&mut self.flash, &mut buf)
                .unwrap();
            self.list.process_garbage(&mut self.flash).unwrap();
        }
    }

    fn attach(&mut self, key: &str) -> Handle {
        let mut node = Node::new(key, SimpleTable);
        node.begin_attach(&mut self.list).unwrap();
        self.work();
        node.finish_attach(&mut self.list).unwrap()
    }

    fn attach_all(&mut self) -> (Handle, Handle, Handle) {
        (
            self.attach("test/config1"),
            self.attach("test/config2"),
            self.attach("test/config3"),
        )
    }

    fn write(&mut self, handle: &mut Handle, data: u64) {
        handle
            .write(&mut self.list, &SimpleConfig { data })
            .unwrap();
    }

    fn load(&self, handle: &Handle) -> u64 {
        handle.load(&self.list).data
    }
}

fn start(ctr: u64, seq: u32) -> TestItem {
    let seq_no = SeqNo::new(seq).unwrap();
    TestItem {
        ctr,
        elem: Some(TestElem::Start { seq_no }),
    }
}

fn end(ctr: u64, seq: u32, calc_crc: u32) -> TestItem {
    let seq_no = SeqNo::new(seq).unwrap();
    TestItem {
        ctr,
        elem: Some(TestElem::End { seq_no, calc_crc }),
    }
}

fn data(ctr: u64, data: Vec<u8>) -> TestItem {
    TestItem {
        ctr,
        elem: Some(TestElem::Data { data }),
    }
}

fn record_997() -> Vec<TestItem> {
    vec![
        start(4980, 997),
        data(4981, vec![1, 108, 116, 101, 115, 116, 47, 99, 111, 110, 102, 105, 103, 51, 129, 26, 0, 1, 133, 116]),
        data(4982, vec![1, 108, 116, 101, 115, 116, 47, 99, 111, 110, 102, 105, 103, 50, 129, 25, 38, 242]),
        data(4983, vec![1, 108, 116, 101, 115, 116, 47, 99, 111, 110, 102, 105, 103, 49, 129, 25, 3, 229]),
        end(4984, 997, 2789166760),
    ]
}

fn record_998() -> Vec<TestItem> {
    vec![
        start(4985, 998),
        data(4986, vec![1, 108, 116, 101, 115, 116, 47, 99, 111, 110, 102, 105, 103, 51, 129, 26, 0, 1, 133, 216]),
        data(4987, vec![1, 108, 116, 101, 115, 116, 47, 99, 111, 110, 102, 105, 103, 50, 129, 25, 38, 252]),
        data(4988, vec![1, 108, 116, 101, 115, 116, 47, 99, 111, 110, 102, 105, 103, 49, 129, 25, 3, 230]),
        end(4989, 998, 1413754379),
    ]
}

fn record_999() -> Vec<TestItem> {
    vec![
        start(4990, 999),
        data(4991, vec![1, 108, 116, 101, 115, 116, 47, 99, 111, 110, 102, 105, 103, 51, 129, 26, 0, 1, 134, 60]),
        data(4992, vec![1, 108, 116, 101, 115, 116, 47, 99, 111, 110, 102, 105, 103, 50, 129, 25, 39, 6]),
        data(4993, vec![1, 108, 116, 101, 115, 116, 47, 99, 111, 110, 102, 105, 103, 49, 129, 25, 3, 231]),
        end(4994, 999, 2388236464),
    ]
}

fn record_1000() -> Vec<TestItem> {
    vec![
        start(4995, 1000),
        data(4996, vec![1, 108, 116, 101, 115, 116, 47, 99, 111, 110, 102, 105, 103, 51, 129, 26, 0, 1, 134, 160]),
        data(4997, vec![1, 108, 116, 101, 115, 116, 47, 99, 111, 110, 102, 105, 103, 50, 129, 25, 39, 16]),
        data(4998, vec![1, 108, 116, 101, 115, 116, 47, 99, 111, 110, 102, 105, 103, 49, 129, 25, 3, 232]),
        end(4999, 1000, 2217662377),
    ]
}

fn joined(records: Vec<Vec<TestItem>>) -> Vec<TestItem> {
    records.into_iter().flatten().collect()
}

/// A thousand write cycles, a reboot, and a reboot with one more write.
fn many_good_writes_inner<const KEPT: usize>(
    expected: Vec<TestItem>,
    expected2: Vec<TestItem>,
) {
    let mut bench = Bench::<KEPT>::new(1, TestStorage::default());
    let (mut node_a, mut node_b, mut node_c) = bench.attach_all();

    assert_eq!(node_a.load(&bench.list), SimpleConfig::default());
    assert_eq!(node_b.load(&bench.list), SimpleConfig::default());
    assert_eq!(node_c.load(&bench.list), SimpleConfig::default());
    bench.work();

    // One thousand write cycles later...
    for i in 1..1000 {
        bench.write(&mut node_a, i);
        bench.write(&mut node_b, i * 10);
        bench.write(&mut node_c, i * 100);
        bench.work();
    }

    // The last records are the only contents in flash. All older items have been continually
    // invalidated.
    assert_eq!(bench.flash.items, expected);

    // Simulate a reboot
    let mut bench = Bench::<KEPT>::new(2, bench.flash);
    let (node_a, node_b, node_c) = bench.attach_all();

    assert_eq!(bench.load(&node_a), 999);
    assert_eq!(bench.load(&node_b), 9990);
    assert_eq!(bench.load(&node_c), 99900);
    bench.work();

    // Just rebooting did not cause any change to the contents of the flash
    assert_eq!(bench.flash.items, expected);

    // Simulate a reboot
    let mut bench = Bench::<KEPT>::new(3, bench.flash);
    let (mut node_a, mut node_b, mut node_c) = bench.attach_all();

    assert_eq!(bench.load(&node_a), 999);
    assert_eq!(bench.load(&node_b), 9990);
    assert_eq!(bench.load(&node_c), 99900);
    bench.work();

    // Do one more write
    bench.write(&mut node_a, 1000);
    bench.write(&mut node_b, 10000);
    bench.write(&mut node_c, 100000);
    bench.work();

    // New write resumed correctly: the oldest record got rotated out
    assert_eq!(bench.flash.items, expected2);
}

#[test]
fn many_good_writes() {
    many_good_writes_inner::<3>(
        joined(vec![record_997(), record_998(), record_999()]),
        joined(vec![record_998(), record_999(), record_1000()]),
    );
}

#[test]
fn many_good_writes_one_kept_record() {
    many_good_writes_inner::<1>(record_999(), record_1000());
}
