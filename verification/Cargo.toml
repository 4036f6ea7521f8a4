[package]
name = "kvs"
version = "0.1.0"
edition = "2021"
publish = false

[dependencies]
byteorder = "=1.5.0"
clap = "=4.6.7"
dashmap = "=6.2.1"
log = "=0.4.34"
rayon = "=1.12.0"
serde = { version = "=1.0.229", features = ["derive"] }
serde_json = "=1.0.154"
skiplist = "=0.6.0"
sled = "=0.34.7"
stderrlog = "=0.6.0"
