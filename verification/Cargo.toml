[package]
name = "query_embeddings"
version = "0.1.0"
edition = "2021"
publish = false

[dependencies]
serde_json = "1"
flate2 = "1"
rayon = "1"
memmap = "0.7"
