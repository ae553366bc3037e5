[package]
name = "cpu_grid"
version = "4.0.0"
edition = "2021"
publish = false

[dependencies]
crossbeam-channel = "0.5"
crossterm = "0.29"
libc = "0.2"
which = "6.0"
