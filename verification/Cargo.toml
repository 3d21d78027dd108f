[package]
name = "offgrid_primitives"
version = "0.1.0"
edition = "2021"
publish = false

[dependencies]
blake3 = "1"
ulid = "1"
serde = { version = "1", features = ["derive"] }
serde_json = "1"
postcard = { version = "1", features = ["alloc"] }
thiserror = "1"
once_cell = "1"
anyhow = "1"
ctrlc = "3"
zmq = "0.10"
prometheus = { version = "0.13", default-features = false }
