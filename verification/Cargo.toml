[package]
name = "seda_bus"
version = "0.4.0"
edition = "2021"
publish = false

[dependencies]
crossbeam-queue = "=0.3.14"
log = "=0.4.35"
parking_lot = "=0.12.5"
serde_json = "=1.0.154"
