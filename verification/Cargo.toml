[package]
name = "xiangqi_search"
version = "0.1.0"
edition = "2021"
publish = false

[dependencies]
crossbeam-channel = "0.5"
nohash-hasher = "0.2"
parking_lot = "0.12"
