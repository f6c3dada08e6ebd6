[package]
name = "atom_core"
version = "0.1.0"
edition = "2021"
publish = false

[dependencies]
crossbeam-epoch = "*"
hyper = { version = "*", features = ["http1", "server"] }
http-body-util = "*"
bytes = "*"
mime = "*"
log = "*"
anyhow = "*"
cookie = "*"
thiserror = "*"
serde = "*"
futures-util = "*"
pin-project = "*"
tokio = { version = "*", features = ["net", "rt-multi-thread", "io-util"] }
