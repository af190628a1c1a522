[package]
name = "csv_scout"
version = "0.1.0"
edition = "2021"
publish = false

[dependencies]
bytecount = "0.6"
csv = "1"
csv-core = "0.1"
hashbrown = "0.15"
regex = "1"
