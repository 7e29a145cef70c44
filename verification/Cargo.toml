[package]
name = "veloq"
version = "0.1.0"
edition = "2021"
publish = false

[dependencies]
deferred-map = "0.3"
lite-sync = "0.2"
libc = "=0.2.191"
atomic-waker = "=1.1.2"
crossbeam-queue = "=0.3.14"
futures-core = "=0.3.34"
