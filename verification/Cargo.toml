[package]
name = "mcf_timetable"
version = "0.1.0"
edition = "2021"
publish = false

[dependencies]
petgraph = "0.6"
indexmap = "1"
rand = "0.8"
csv = "1"
bincode = "1"
serde = { version = "1", features = ["derive"] }
clap = "2"
colored = "2"
crossbeam-utils = "0.8"
