[package]
name = "structure_sync"
version = "0.1.0"
edition = "2021"
publish = false

[dependencies]
notify = "6.1"
