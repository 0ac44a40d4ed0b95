[package]
name = "udisks_topology"
version = "0.1.0"
edition = "2021"
publish = false

[dependencies]
futures = "0.3"
zbus = "3"
