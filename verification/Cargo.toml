[package]
name = "zenoh_wire"
version = "0.1.0"
edition = "2021"
publish = false

[dependencies]
async-trait = "*"
flume = "*"
serde = { version = "*", features = ["derive"] }
