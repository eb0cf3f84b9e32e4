[package]
name = "shs_index"
version = "0.1.0"
edition = "2021"
publish = false

[dependencies]
url = "1.7"
chrono = "0.4"
pretty-bytes = "0.2"
askama = "0.7"
clap = "2"
actix-web = { version = "0.7", default-features = false }
