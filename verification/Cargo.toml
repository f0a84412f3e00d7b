[package]
name = "wit_scheduler"
version = "0.1.0"
edition = "2021"
publish = false

[dependencies]
clap = { version = "4", features = ["derive"] }
config = { version = "0.14", default-features = false, features = ["json"] }
filetime = "0.2"
ignore = "0.4"
reqwest = { version = "0.12", features = ["blocking", "multipart", "json"] }
rexiv2 = "0.10"
serde_json = "1"
