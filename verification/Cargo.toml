[package]
name = "clam_onaccess"
version = "0.1.0"
edition = "2021"
publish = false

[dependencies]
clap = { version = "=4.6.7", features = ["derive"] }
deadpool = "=0.13.1"
derive_more = { version = "=2.1.1", features = ["deref", "as_ref"] }
inotify = "=0.11.5"
nix = { version = "=0.31.3", features = ["fanotify", "fs", "socket", "uio"] }
procfs = "=0.18.0"
serde = { version = "=1.0.229", features = ["derive"] }
serde_json = "=1.0.154"
tokio = { version = "=1.54.1", features = ["io-util", "macros", "net", "rt-multi-thread", "sync", "time"] }
