[package]
name = "transit_index"
version = "0.1.0"
edition = "2021"
publish = false

[dependencies]
geo = "*"
trigram = "*"
chrono = "*"
gtfs-structures = { version = "*", default-features = false }
tiny_http = "*"
url = "*"
serde = { version = "*", features = ["derive"] }
serde_json = "*"
