[package]
name = "scoop"
version = "0.1.0"
edition = "2021"
publish = false

[dependencies]
chrono = "0.4"
daemonize = "0.5"
docopt = "1"
libc = "0.2"
notify = "4"
rand = "0.8"
serde = "1"
serde_derive = "1"
serde_json = "1"
