[package]
name = "aoc_toolkit"
version = "0.1.0"
edition = "2021"
publish = false

[dependencies]
chrono = "0.4"
colored = "*"
minreq = "*"
sysinfo = "*"

[dev-dependencies]
md5 = "0.7"
