[package]
name = "ifprobe"
version = "0.1.0"
edition = "2021"
publish = false

[dependencies]
bytes = "1"
netlink-packet-core = "0.4"
netlink-packet-route = "0.13"
netlink-sys = "0.8"
