use cfg_noodle::crc32::Crc32;
use cfg_noodle::elem::SeqNo;
use cfg_noodle::error::Error;
use cfg_noodle::node_handle::{StorageListNode, StorageListNodeHandle};
use cfg_noodle::storage_list::StorageList;
use cfg_noodle::storage_node::{CborUnsigned, VTable};
use cfg_noodle::test_utils::{TestElem, TestItem, TestStorage};
use cfg_noodle::worker_task::no_op_worker_task;
use minicbor::encode::write::Cursor;

#[derive(Debug, Clone, PartialEq)]
struct PositronConfig {
    up: u8,
    down: u16,
    strange: u32,
}

impl Default for PositronConfig {
    fn default() -> Self {
        Self {
            up: 10,
            down: 20,
            strange: 103,
        }
    }
}

/// Stands for a configuration as a CBOR array of three integers.
#[derive(Clone, Copy)]
struct PositronTable;

impl VTable<PositronConfig> for PositronTable {
    fn serialize(&self, t: &PositronConfig, buf: &mut [u8]) -> Result<usize, ()> {
        let mut e = minicbor::Encoder::new(Cursor::new(buf));
        e.array(3)
            .and_then(|e| e.u8(t.up))
            .and_then(|e| e.u16(t.down))
            .and_then(|e| e.u32(t.strange))
            .map_err(|_| ())?;
        Ok(e.into_writer().position())
    }

    fn deserialize(&self, buf: &[u8]) -> Result<PositronConfig, ()> {
        let mut d = minicbor::Decoder::new(buf);
        match d.array() {
            Ok(Some(3)) => Ok(PositronConfig {
                up: d.u8().map_err(|_| ())?,
                down: d.u16().map_err(|_| ())?,
                strange: d.u32().map_err(|_| ())?,
            }),
            _ => Err(()),
        }
    }

    fn encoded_len(&self, t: &PositronConfig) -> usize {
        1 + minicbor::len(t.up) + minicbor::len(t.down) + minicbor::len(t.strange)
    }
}

type List = StorageList<PositronConfig, PositronTable, 3>;
type Node = StorageListNode<PositronConfig, PositronTable>;
type Handle = StorageListNodeHandle<PositronConfig, PositronTable>;

fn node(key: &str) -> Node {
    Node::new(key, PositronTable)
}

fn work(list: &mut List, flash: &mut TestStorage) {
    let mut buf = [0u8; 4096];
    if list.needs_read() {
        list.process_reads(flash).unwrap();
        list.process_garbage(flash).unwrap();
    }
    if list.needs_write() {
        list.process_writes(flash, &mut buf).unwrap();
        list.process_garbage(flash).unwrap();
    }
}

/// Attaches a node, with a read in between.
fn attach(list: &mut List, flash: &mut TestStorage, node: &mut Node) -> Result<Handle, Error> {
    node.begin_attach(list)?;
    work(list, flash);
    Ok(node.finish_attach(list).unwrap())
}

/// Test that we can handle multiple nodes using the TestStorage backend
#[test]
fn storage_list_test_two_configs_tst_sto() {
    let mut list = List::new(1);
    let mut flash = TestStorage::default();
    let mut positron_config1 = node("positron/config1");
    let mut positron_config2 = node("positron/config2");

    // Obtain a handle for the first config
    let mut config_handle = attach(&mut list, &mut flash, &mut positron_config1).unwrap();
    // Obtain a handle for the second config. This should _not_ error!
    let _ch2 = attach(&mut list, &mut flash, &mut positron_config2).unwrap();

    // Load data for the first handle
    assert_eq!(config_handle.load(&list), PositronConfig::default());

    // Write a new config to first handle
    let new_config = PositronConfig {
        up: 15,
        down: 25,
        strange: 108,
    };
    config_handle.write(&mut list, &new_config).unwrap();
    work(&mut list, &mut flash);

    // Assert that the loaded value equals the written value
    assert_eq!(config_handle.load(&list), new_config);
}

/// This test will write a config to the flash first and then read it back to check
/// whether reading an item from flash works.
#[test]
fn storage_list_test_load_existing() {
    // Serialize the custom_config config so we can write it to our flash
    let custom_config = PositronConfig {
        up: 1,
        down: 22,
        strange: 333,
    };
    assert_ne!(custom_config, PositronConfig::default());
    let mut data = vec![1];
    data.extend(minicbor::to_vec("positron/config").unwrap());
    data.extend(minicbor::to_vec((1u8, 22u16, 333u32)).unwrap());
    let mut crc = Crc32::new();
    crc.update(&data[1..]);
    let calc_crc = crc.finalize();

    let seq_no = SeqNo::new(1).unwrap();
    let elems = vec![
        TestElem::Start { seq_no },
        TestElem::Data { data },
        TestElem::End { seq_no, calc_crc },
    ];
    let mut flash = TestStorage::default();
    for elem in elems {
        let ctr = flash.next_ctr();
        flash.items.push(TestItem {
            ctr,
            elem: Some(elem),
        });
    }

    // Obtain a handle for the config. It should match the custom_config.
    let mut list = List::new(1);
    let mut positron_config = node("positron/config");
    let expecting_already_present = attach(&mut list, &mut flash, &mut positron_config).unwrap();
    assert_eq!(
        custom_config,
        expecting_already_present.load(&list),
        "Key should already be present"
    );
}

/// Test that attaching duplicate keys causes an error
#[test]
fn storage_list_test_duplicate_key() {
    let mut list = List::new(1);
    let mut flash = TestStorage::default();
    let mut positron_config1 = node("positron/config");
    let mut positron_config2 = node("positron/config");

    // Obtain a handle for the first config
    let _config_handle = attach(&mut list, &mut flash, &mut positron_config1).unwrap();

    // Obtain a handle for the second config. It has the same key as the first.
    assert_eq!(
        positron_config2.begin_attach(&mut list),
        Err(Error::DuplicateKey),
    );
}

/// Test creating two handles from the same node fails
#[test]
fn test_duplicate_handle() {
    let mut list = List::new(1);
    let mut flash = TestStorage::default();
    let mut positron_config1 = node("positron/config");

    // Obtain a handle for the config
    let _config_handle = attach(&mut list, &mut flash, &mut positron_config1).unwrap();

    // Try to re-obtain a handle for the same config.
    assert_eq!(
        positron_config1.begin_attach(&mut list),
        Err(Error::AlreadyTaken),
    );
}

/// Test reattaching a node fails before dropping the handle and works after dropping the handle
#[test]
fn test_reattach_handle() {
    let mut list = List::new(1);
    let mut flash = TestStorage::default();
    let mut positron_config1 = node("positron/config");

    // Obtain a handle for the config
    let config_handle = attach(&mut list, &mut flash, &mut positron_config1).unwrap();

    // Try to re-obtain a handle for the same config on the same list.
    assert_eq!(
        positron_config1.begin_attach(&mut list),
        Err(Error::AlreadyTaken),
    );

    // explicitly give the handle back
    config_handle.release(&mut positron_config1);

    // Re-attach allowed
    assert!(attach(&mut list, &mut flash, &mut positron_config1).is_ok());
}

/// Test that a node stays with its list until it is detached
#[test]
fn test_cant_reattach_without_detach_handle() {
    let mut list1 = List::new(1);
    let mut list2 = List::new(2);
    let mut flash = TestStorage::default();
    let mut flash2 = TestStorage::default();
    let mut positron_config1 = node("positron/config");

    // Obtain a handle for the config
    let config_handle = attach(&mut list1, &mut flash, &mut positron_config1).unwrap();

    // Try to re-obtain a handle for the same config on the same list.
    assert_eq!(
        positron_config1.begin_attach(&mut list1),
        Err(Error::AlreadyTaken),
    );

    // Try to attach to a different list
    assert_eq!(
        positron_config1.begin_attach(&mut list2),
        Err(Error::NodeInOtherList),
    );

    // explicitly give the handle back
    config_handle.release(&mut positron_config1);

    // Try to attach to a different list
    assert_eq!(
        positron_config1.begin_attach(&mut list2),
        Err(Error::NodeInOtherList),
    );

    // Detach from wrong list doesn't work
    assert_eq!(
        positron_config1.detach(&mut list2),
        Err(Error::NodeInOtherList),
    );

    // Detach from list
    assert_eq!(positron_config1.detach(&mut list1), Ok(()));

    // Try to attach to a different list
    assert!(attach(&mut list2, &mut flash2, &mut positron_config1).is_ok());
}

#[test]
fn no_op_worker_never_fails_and_ignores_all_writes() {
    let mut list = StorageList::<u64, CborUnsigned, 3>::new(1);
    let mut node = StorageListNode::new("config/node", CborUnsigned);

    node.begin_attach(&mut list).unwrap();
    assert!(no_op_worker_task(&mut list));
    let mut handle = node.finish_attach(&mut list).unwrap();

    // On start-up we read the default
    assert_eq!(handle.load(&list), 0);

    // Writing locally works
    handle.write(&mut list, &42).unwrap();
    assert_eq!(handle.load(&list), 42);

    // But data will not be written to flash
    assert!(!no_op_worker_task(&mut list));
    handle.release(&mut node);
    node.detach(&mut list).unwrap();

    // So when we re-attach, we get back the default value
    node.begin_attach(&mut list).unwrap();
    assert!(no_op_worker_task(&mut list));
    let handle = node.finish_attach(&mut list).unwrap();
    assert_eq!(handle.load(&list), 0);
}

/// A node that is attached once more keeps what has not been flushed.
#[test]
fn pending_value_survives_a_new_handle() {
    let mut list = List::new(1);
    let mut flash = TestStorage::default();
    let mut positron_config = node("positron/config");
    let mut handle = attach(&mut list, &mut flash, &mut positron_config).unwrap();
    let pending = PositronConfig {
        up: 1,
        down: 2,
        strange: 3,
    };
    handle.write(&mut list, &pending).unwrap();
    assert_eq!(handle.key(), "positron/config");
    handle.release(&mut positron_config);

    assert_eq!(positron_config.begin_attach(&mut list), Ok(true));
    let handle = positron_config.finish_attach(&mut list).unwrap();
    assert_eq!(handle.load(&list), pending);
}

/// A node cannot be detached while there is a handle; a node that is not attached can.
#[test]
fn detach_waits_for_the_handle() {
    let mut list = List::new(1);
    let mut flash = TestStorage::default();
    let mut positron_config = node("positron/config");
    assert_eq!(positron_config.detach(&mut list), Ok(()));
    assert!(!list.contains_key("positron/config"));

    let handle = attach(&mut list, &mut flash, &mut positron_config).unwrap();
    assert!(list.contains_key("positron/config"));
    assert_eq!(positron_config.detach(&mut list), Err(Error::AlreadyTaken));
    handle.release(&mut positron_config);
    assert_eq!(positron_config.detach(&mut list), Ok(()));
    assert!(!list.contains_key("positron/config"));
}

#[test]
fn default_of_the_caller_is_used_where_nothing_is_stored() {
    let mut list = List::new(1);
    let mut flash = TestStorage::default();
    let mut positron_config = node("positron/config");
    let special = PositronConfig {
        up: 7,
        down: 8,
        strange: 9,
    };
    positron_config.begin_attach(&mut list).unwrap();
    assert!(positron_config
        .finish_attach_with_default(&mut list, || special.clone())
        .is_none());
    work(&mut list, &mut flash);
    let handle = positron_config
        .finish_attach_with_default(&mut list, || special.clone())
        .unwrap();
    assert_eq!(handle.load(&list), special);
    // a default is no reason to write by itself
    assert!(!list.needs_write());
    assert!(flash.items.is_empty());
}

#[test]
fn list_keeps_at_least_one_record() {
    assert!(StorageList::<PositronConfig, PositronTable, 0>::try_new(1).is_none());
    let list = StorageList::<PositronConfig, PositronTable, 1>::try_new(5).unwrap();
    assert_eq!(list.id(), 5);
    assert_eq!(list.node_count(), 0);
}
