[package]
name = "sheet_upsert"
version = "0.7.0"
edition = "2021"
publish = false

[dependencies]
calamine = "0.22"
regex = "1"
serde = { version = "1", features = ["derive"] }
serde_json = "1"
toml = "0.8"
umya-spreadsheet = "1"
