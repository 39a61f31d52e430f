[package]
name = "cfg_noodle"
version = "0.4.0"
edition = "2021"
publish = false

[dependencies]
crc = "=3.4.0"
minicbor = { version = "=2.3.1", features = ["alloc", "derive"] }
sequential-storage = "=7.2.0"
embedded-storage-async = "=0.4.2"
maitake-sync = "=0.3.0"
mutex = { version = "=1.0.2", features = ["impl-critical-section"] }
mutex-traits = "=1.0.1"
embassy-futures = "=0.1.2"
embassy-sync = "=0.8.0"
embassy-time = "=0.5.1"

[dev-dependencies]
sequential-storage = { version = "=7.2.0", features = ["_test"] }
