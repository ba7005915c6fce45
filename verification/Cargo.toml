[package]
name = "fun_kv"
version = "0.1.0"
edition = "2021"
publish = false

[dependencies]
ahash = "*"
bytemuck = "*"
bytes = "*"
crossbeam-channel = "*"
crossbeam-epoch = "*"
crossbeam-skiplist = "*"
crossbeam-utils = "*"
io-uring = "*"
libc = "*"
num_cpus = "*"
parking_lot = "*"
rand = "*"
scc = "*"
thiserror = "*"
