[package]
name = "indexer"
version = "0.1.0"
edition = "2021"
publish = false

[dependencies]
serde = { version = "1", features = ["derive"] }
serde_json = "1"
json_dotpath = "*"
indexmap = "*"
ordered-float = "*"
glob = "0.3"
rayon = "1"
