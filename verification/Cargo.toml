[package]
name = "cargo-shepherd"
version = "0.1.0"
edition = "2021"
publish = false

[dependencies]
bytefmt = "*"
clap = { version = "4", features = ["derive"] }
crossbeam-channel = "0.5"
crossterm = "*"
eyre = "0.6"
homedir = "*"
ignore = "0.4"
notify = "*"
num_cpus = "1"
ratatui = "*"
rayon = "1"
regex = "1"
timeago = "*"
tracing = "0.1"
tracing-chrome = "0.7"
tracing-subscriber = "0.3"
