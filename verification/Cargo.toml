[package]
name = "pdf_ast"
version = "0.1.0"
edition = "2021"
publish = false

[dependencies]
log = "=0.4.35"
parking_lot = "=0.12.5"
regex = "1"
serde = { version = "=1.0.229", features = ["derive"] }
serde_json = "=1.0.154"
