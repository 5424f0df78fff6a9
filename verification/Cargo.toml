[package]
name = "fits-header"
version = "0.4.2"
edition = "2021"
publish = false

[dependencies]
skymath = "0.6"
time = "0.3"
thiserror = "2"
serde = { version = "1", features = ["derive"] }
