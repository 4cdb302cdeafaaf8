[package]
name = "ioqp"
version = "0.1.0"
edition = "2021"
publish = false

[dependencies]
anyhow = "*"
bincode = "1"
bitpacking = "*"
bytes = "*"
memmap2 = "*"
parking_lot = "*"
prost = "*"
serde = { version = "*", features = ["derive"] }
streamvbyte = "*"
