[package]
name = "staged_sync"
version = "0.1.0"
edition = "2021"
publish = false

[dependencies]
fnv = "1"
rayon = "1"
clap = { version = "4", features = ["derive"] }
eyre = "0.6"
shellexpand = "3"
