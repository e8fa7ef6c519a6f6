[package]
name = "actuate"
version = "0.1.0"
edition = "2021"
publish = false

[dependencies]
slotmap = "1"
crossbeam-queue = "0.3"
tokio = { version = "1", features = ["rt", "rt-multi-thread", "sync"] }
futures = "0.3"
thiserror = "2"
