[package]
name = "comet"
version = "0.1.0"
edition = "2021"
publish = false

[dependencies]
ahash = "*"
atomic = "*"
crossbeam = "*"
crossbeam-utils = "*"
flume = "*"
im = "*"
memmap2 = "*"
modular-bitfield = "*"
mopa = "*"
parking_lot = "*"
