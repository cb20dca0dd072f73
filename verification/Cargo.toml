[package]
name = "rockduck"
version = "0.1.0"
edition = "2021"
publish = false

[dependencies]
arrow-array = "58"
arrow-ipc = "58"
arrow-schema = "58"
arrow-select = "58"
bincode = "1.3"
bincode-next = "*"
bitvec = "1"
croaring = "2"
fastbloom = { version = "*", features = ["serde"] }
memmap2 = "0.9"
moka = { version = "0.12", features = ["sync"] }
parking_lot = "0.12"
postcard = { version = "1", features = ["use-std"] }
rayon = "1"
roaring = "*"
rustc-hash = "2"
serde = { version = "1", features = ["derive"] }
tracing = "0.1"
uuid = { version = "1", features = ["v7"] }

[dev-dependencies]
tempfile = "3"
