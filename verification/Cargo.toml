[package]
name = "plv"
version = "0.1.0"
edition = "2021"
publish = false

[dependencies]
anyhow = "1"
clap = { version = "4", default-features = false, features = ["std", "derive", "help", "usage"] }
crossterm = { version = "0.28", default-features = false, features = ["events"] }
polars = { version = "0.55", default-features = false, features = ["lazy", "csv", "parquet"] }
ratatui = { version = "0.29", default-features = false, features = ["crossterm"] }
regex = "1"
sysinfo = { version = "0.40", default-features = false, features = ["system"] }
