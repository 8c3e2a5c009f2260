[package]
name = "morse"
version = "0.1.0"
edition = "2021"
publish = false

[dependencies]
rand = "=0.10.3"
serde = { version = "=1.0.229", features = ["derive"] }
serde_json = "=1.0.154"
gtk4 = "=0.11.5"
libadwaita = "=0.9.2"
gettext-rs = "=0.7.7"
