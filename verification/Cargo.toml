[package]
name = "pocket_huim"
version = "0.1.0"
edition = "2021"
publish = false

[dependencies]
smallvec = "1"
crc32fast = "1"
lz4_flex = "0.11"
dashmap = "5"
parking_lot = "0.12"
serde = { version = "1", features = ["derive"] }
serde_json = "1"
csv = "1"
sysinfo = "0.30"
tokio = { version = "1", features = ["rt-multi-thread", "macros", "sync"] }
clap = { version = "4", features = ["derive"] }
dialoguer = "0.11"
crossterm = "0.27"
ratatui = "0.26"
rayon = "1"
crossbeam-channel = "0.5"
rand = "0.8"
bitflags = "2"

[dev-dependencies]
tempfile = "3"
