[package]
name = "objwal"
version = "0.1.0"
edition = "2021"
publish = false

[dependencies]
crc32c = "*"
sha2 = "0.10"
rusty-s3 = "*"
url = "2"
tar = "0.4"
serde = { version = "1", features = ["derive"] }
serde_json = "1"
ureq = { version = "2", default-features = false }
libc = "0.2"
