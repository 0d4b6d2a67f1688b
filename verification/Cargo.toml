[package]
name = "cardinal"
version = "0.1.0"
edition = "2021"
publish = false

[dependencies]
anyhow = "1"
bincode = "2"
chrono = "0.4"
clap = { version = "4", features = ["derive"] }
core-foundation = "0.10"
crossbeam-channel = "0.5"
crossterm = "0.28"
dispatch2 = "0.3"
fsevent-sys = "4"
hashbrown = "0.15"
itertools = "0.14"
libc = "0.2"
memchr = "2"
objc2-core-services = "0.3"
once_cell = "1"
ratatui = "0.29"
rayon = "1"
serde = { version = "1", features = ["derive"] }
tokio = { version = "1", features = ["rt-multi-thread", "macros"] }
tracing = "0.1"
tracing-subscriber = { version = "0.3", features = ["env-filter"] }
walkdir = "2"
zstd = { version = "0.13", features = ["zstdmt"] }
