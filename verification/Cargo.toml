[package]
name = "smart_sorter"
version = "0.1.0"
edition = "2021"
publish = false

[dependencies]
regex = "1"
sha2 = "0.10"
uuid = { version = "1", features = ["v4"] }
chrono = "0.4"
serde = { version = "1", features = ["derive"] }
serde_json = "1"
walkdir = "2"
lofty = "*"
kamadak-exif = "*"
lopdf = "*"
quick-xml = "*"
zip = { version = "*", default-features = false, features = ["deflate"] }
