[package]
name = "rusted_pipe"
version = "0.1.0"
edition = "2021"
publish = false

[dependencies]
crossbeam = "*"
atomic = "0.5"
lazy_static = "*"
log = "*"
prometheus = "*"
rusty_pool = "*"
