[package]
name = "walkthrough_archive"
version = "0.1.0"
edition = "2021"
publish = false

[dependencies]
url = "2"
slug = "0.1"
tl = "0.7"
rayon = "1"
dirs = "5"
reqwest = { version = "0.12", default-features = false, features = ["blocking", "rustls-tls"] }
