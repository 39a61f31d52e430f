# cfg_noodle

A configuration storage for embedded systems, verified with [Verus](https://github.com/verus-lang/verus).

Configuration items live in the nodes of a list. The list is written to a storage as a whole,
as a *write record*: a Start element with a sequence number, one data element for each node
that holds a value, of which there is at least one, and an End element with the same number and
a CRC over the data. A record counts only if it is complete and its CRC is right. What is read
is the record with the highest number, so that a write that is cut off at any point reads as if
it had not been begun. The number of such a write is not used again as long as anything of it
is there.

## Layout

- `src/`: the library.
  - `elem`, `flash`, `cbor`, `crc32`, `consts`: elements, their bytes, and their checksum
  - `storage`, `empty`, `test_utils`: storage backends
  - `record`, `seq_state`, `scan`: which records a storage holds, and which are remembered
  - `extract`, `write_record`, `verify_record`: reading, writing and reading back a record
  - `storage_node`, `storage_list`, `node_handle`, `model`: nodes, the list, the handles, and
    what the operations do to them
  - `worker_task`, `debounce`, `demo`: what a worker does when and in which order, and the demo
    configurations
  - `laws_*`: what is proved of the library as a whole
- `tests/`: tests that run the library, among others on the queue of `sequential-storage`.
- `app/`: the asynchronous front end: lists and nodes in statics, flashes that are awaited, and
  the worker tasks.

## What is proved

Each operation states what it does to the list and to the items of the storage. On top of that:

- a list that reads a storage gets what the last complete write has put there, whatever the
  list that wrote it has gone through since it was new
- a value that needs no write is in the storage, unless a write was counted as failed though its
  record was complete
- an interrupted write, or an interrupted garbage collection, changes nothing of what is read
- garbage collection keeps the newest records, with their data, and nothing else
- a damaged item touches no record but its own
- a write that failed does not hold up the next one
- on a storage that does not fail, a write that is due succeeds, also after a collection
- the next record gets a number that no Start element in the storage has
- the workers answer each signal with the operations that it asks for, however these end, and
  only after a quiet period
- a value stays what it is until it is replaced

## What is taken on trust

The results of `minicbor` for text strings and unsigned integers, stated in `cbor`, and the
checksum that the `crc` crate computes, stated bit by bit in `crc32`. How other values are
serialized is up to the implementations of `VTable`, and how items are stored is up to those of
`NdlDataStorage`.
