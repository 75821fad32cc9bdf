[package]
name = "download_watcher"
version = "0.1.0"
edition = "2021"
publish = false

[dependencies]
futures = "*"
log = "*"
log4rs = "*"
poise = "*"
reqwest = { version = "*", default-features = false, features = ["rustls-tls"] }
tokio = { version = "*", features = ["macros", "rt", "rt-multi-thread", "time"] }
xmltree = "*"
