[package]
name = "impp"
version = "0.1.0"
edition = "2021"
publish = false

[dependencies]
rand = "=0.7.3"
regex = "=1.13.1"
serde = { version = "=1.0.229", features = ["derive"] }
serde_json = "=1.0.154"
preferences = "=1.1.0"
ureq = "=1.5.5"
