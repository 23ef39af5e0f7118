[package]
name = "everything_core"
version = "0.1.0"
edition = "2021"
publish = false

[dependencies]
glob = "0.3"
regex = "1"
rayon = "1"
serde = { version = "1", features = ["derive"] }
serde_json = "1"
notify = "*"
clap = { version = "4", features = ["derive"] }
colored = "*"
human_bytes = "*"
