[package]
name = "chameleon"
version = "0.1.0"
edition = "2021"
publish = false

[dependencies]
roaring = "*"
clap = { version = "*", features = ["derive"] }
gethostname = "*"
chrono = "*"
csv = "*"
serde = { version = "*", features = ["derive"] }
serde_json = "*"
itertools = "*"
either = "*"
