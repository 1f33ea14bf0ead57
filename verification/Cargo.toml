[package]
name = "hopfreq"
version = "0.1.0"
edition = "2021"
publish = false

[dependencies]
bgpkit-broker = "*"
bgpkit-parser = "*"
chrono = "*"
clap = { version = "*", features = ["derive"] }
oneio = "*"
rayon = "*"
tracing = "*"
tracing-subscriber = "*"
