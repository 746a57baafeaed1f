[package]
name = "fync"
version = "0.1.0"
edition = "2021"
publish = false

[dependencies]
anyhow = "=1.0.104"
bincode = "=2.0.1"
clap = { version = "=4.6.7", features = ["derive"] }
crossbeam-channel = "=0.5.17"
ignore = "=0.4.33"
iroh-blake3 = "=1.4.5"
notify-debouncer-full = "=0.7.0"
regex = "=1.13.1"
shlex = "=2.0.1"
tracing = "=0.1.44"
tracing-subscriber = "=0.3.23"
