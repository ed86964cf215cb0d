[package]
name = "lucene_arrow"
version = "0.1.0"
edition = "2021"
publish = false

[dependencies]
arrow-array = "58"
arrow-buffer = "58"
arrow-flight = "58"
arrow-ipc = "58"
arrow-schema = "58"
arrow-select = "58"
bearing = "0.1.0-alpha.5"
crc32fast = "*"
futures = "*"
lz4_flex = "*"
memmap2 = "*"
serde = { version = "*", features = ["derive"] }
serde_json = "*"
thiserror = "*"
tokio = { version = "*", features = ["rt", "rt-multi-thread", "macros", "net"] }
tonic = "0.14"
