[package]
name = "kenken"
version = "0.1.0"
edition = "2021"
publish = false

[dependencies]
good_lp = { version = "1", default-features = false, features = ["microlp"] }
anyhow = "1"
base64 = "0.13"
clap = { version = "3", features = ["derive"] }
image = "0.24"
imageproc = "0.23"
rusttype = "0.9"
rand = "0.8"
ron = "0.8"
serde = { version = "1", features = ["derive"] }
serde_json = "1"
termcolor = "1"
