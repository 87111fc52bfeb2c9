[package]
name = "ike_gc"
version = "0.1.0"
edition = "2021"
publish = false

[dependencies]
memmap2 = "0.9"
slotmap = "1"
