[package]
name = "doc_search"
version = "0.1.0"
edition = "2021"
publish = false

[dependencies]
regex = "=1.13.1"
ansi_term = "=0.12.1"
rand = "=0.8.8"
time = "=0.3.55"

[dev-dependencies]
tantivy = "=0.27.0"
