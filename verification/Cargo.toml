[package]
name = "env_process_interface"
version = "0.1.0"
edition = "2021"
publish = false

[dependencies]
fastrand = "*"
raw_sync = "*"
shared_memory = "*"
