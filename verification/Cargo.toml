[package]
name = "p2p_transfer"
version = "0.1.0"
edition = "2021"
publish = false

[dependencies]
blake3 = "=1.8.7"
bao-tree = "=0.17.0"
postcard = { version = "=1.1.3", features = ["alloc"] }
crc32fast = "=1.5.4"
serde = { version = "=1.0.229", features = ["derive"] }
iroh-tickets = "=1.0.0"
anyhow = "=1.0.104"
clap = { version = "=4.6.7", features = ["derive"] }
colored = "=3.1.1"
walkdir = "=2.5.0"
rayon = "=1.12.0"
chksum-md5 = "=0.1.0"
slab_tree = "=0.3.2"
tap = "=1.0.1"
bytes = "=1.12.1"
log = "=0.4.35"
env_logger = "=0.11.11"
tokio = { version = "=1.54.1", features = ["rt", "macros", "io-util", "sync", "time"] }
url = "=2.5.8"
