[package]
name = "lakesoul-io"
version = "0.1.0"
edition = "2021"
publish = false

[dependencies]
arrow = { version = "=59.3.1", default-features = false }
bytes = "=1.12.1"
datafusion-common = { version = "=55.2.0", default-features = false }
futures = "=0.3.34"
object_store = { version = "=0.14.2", default-features = false, features = ["tokio"] }
rand = "=0.9.5"
tokio = { version = "=1.54.1", features = ["rt", "rt-multi-thread", "sync"] }
tokio-postgres = "=0.7.18"
