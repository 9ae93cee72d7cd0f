[package]
name = "hook_filters"
version = "0.1.0"
edition = "2021"
publish = false

[dependencies]
once_cell = "1"
