[package]
name = "meridian"
version = "0.1.0"
edition = "2021"
publish = false

[dependencies]
getrandom = "0.3"
regex = "1"
sha2 = "0.10"
urlencoding = "2"
chrono = "0.4"
serde = { version = "1", features = ["derive"] }
serde_json = "1"
ureq = "3"
clap = { version = "4", features = ["derive"] }
fs4 = "0.13"
tiny_http = "0.12"
thiserror = "2"
