[package]
name = "rsync_chunks"
version = "0.1.0"
edition = "2021"
publish = false

[dependencies]
chrono = "0.4"
regex = "1"
sha1 = "0.10"
clap = { version = "4", features = ["derive"] }
colored = "2"
flate2 = "1"
glob = "0.3"
rusqlite = { version = "*", features = ["bundled"] }
tempfile = "3"
