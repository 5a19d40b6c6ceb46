[package]
name = "buzuki_search"
version = "0.1.0"
edition = "2021"
publish = false

[dependencies]
regex = "1"
tantivy = { version = "*", default-features = false, features = ["mmap", "stemmer", "lz4-compression"] }
hyper = { version = "0.14", features = ["full"] }
tokio = { version = "1", features = ["macros", "rt-multi-thread"] }
url = "2"
serde_json = "1"
log = "0.4"
env_logger = "*"
tempfile = "3"
