[package]
name = "labs"
version = "0.1.0"
edition = "2021"
publish = false

[dependencies]
bincode = "1"
clap = { version = "4", features = ["derive"] }
colored = "2"
crossbeam = "0.8"
fcntl = "*"
fork = "*"
rand = "0.8"
serde = { version = "1", features = ["derive"] }
