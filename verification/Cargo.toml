[package]
name = "matchmaking_engine"
version = "0.1.0"
edition = "2021"
publish = false

[dependencies]
crossbeam-channel = "0.5"
parking_lot = "0.12"
rand = "0.8"
