[package]
name = "rusty_cruncher"
version = "0.1.0"
edition = "2021"
publish = false

[dependencies]
anyhow = "1"
clap = { version = "4", features = ["derive"] }
polars = { version = "0.38", default-features = false, features = ["csv", "json", "parquet"] }
rayon = "1"
