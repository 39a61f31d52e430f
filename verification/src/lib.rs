//! Configuration storage on flash.
//!
//! Configuration items live in the nodes of a [`storage_list::StorageList`]. The list is
//! written to a [`storage::NdlDataStorage`] as a whole, as a write record: a Start element, a
//! data element for each node, and an End element with a CRC. A record counts only when it is
//! complete, so that power can fail at any time: what is read is the newest complete record.
//! Older records are removed by garbage collection.
//!
//! The modules named `laws` hold what is proved of the library as a whole.
pub mod cbor;
pub mod consts;
pub mod crc32;
pub mod debounce;
pub mod demo;
pub mod elem;
pub mod empty;
pub mod error;
pub mod extract;
pub mod flash;
pub mod laws_counting;
pub mod laws_garbage;
pub mod laws_history;
pub mod laws_interrupted_garbage;
pub mod laws_list;
pub mod laws_reading;
pub mod laws_record;
pub mod laws_seq;
pub mod laws_values;
pub mod laws_writing;
pub mod model;
pub mod node_handle;
pub mod record;
pub mod scan;
pub mod seq_state;
pub mod storage;
pub mod storage_list;
pub mod storage_node;
pub mod test_utils;
pub mod verify_record;
pub mod worker_task;
pub mod write_record;
