[package]
name = "text_signals"
version = "0.1.0"
edition = "2021"
publish = false

[dependencies]
cached = "=4.0.3"
fasttext = "*"
flate2 = "=1.1.10"
hex = "=0.4.3"
polars = { version = "=0.55.2", default-features = false, features = ["dtype-struct", "dtype-u8"] }
polars-arrow = { version = "=0.55.2", default-features = false }
pyo3-polars = { version = "=0.28.0", features = ["derive"] }
rand = "=0.9.5"
regex = "=1.13.1"
serde = { version = "=1.0.229", features = ["derive"] }
tokenizers = { version = "=0.23.2", default-features = false, features = ["onig"] }
uuid = { version = "=1.29.0", features = ["v4"] }
xxhash-rust = { version = "=0.8.19", features = ["xxh3"] }
