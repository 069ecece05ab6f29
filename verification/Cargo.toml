[package]
name = "tfidf_rank"
version = "0.1.0"
edition = "2021"
publish = false

[dependencies]
stop-words = "*"
pyo3 = "*"
