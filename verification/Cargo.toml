[package]
name = "docmill"
version = "1.4.2"
edition = "2021"
publish = false

[dependencies]
docling = { version = "=1.67.0", default-features = false }
docling-core = "=1.67.0"
docling-pdf = { version = "=1.67.0", default-features = false, features = ["ocr-prep"] }
glob = "=0.3.4"
image = "=0.25.10"
ort = { version = "=2.0.0-rc.13", default-features = false, features = ["std", "load-dynamic"] }
serde_json = { version = "=1.0.154", features = ["preserve_order"] }
sha2 = "=0.10.9"
thiserror = "2"
tiny_http = "=0.12.0"
ureq = "=3.5.1"
zip = { version = "=2.4.2", default-features = false, features = ["deflate"] }

[dev-dependencies]
tempfile = "3"
