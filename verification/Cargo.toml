[package]
name = "aideon_tools"
version = "0.1.0"
edition = "2021"
publish = false

[dependencies]
serde_json = "1"
serde = { version = "1", features = ["derive"] }
uuid = { version = "1", features = ["v5"] }
iref = "3"
oxigraph = { version = "0.5", default-features = false }
json-ld = "0.21"
json-ld-syntax = "0.21"
json-syntax = { version = "0.12", features = ["serde_json"] }
futures = "0.3"
calamine = "*"
rust_xlsxwriter = "*"
clap = { version = "4", features = ["derive"] }
thiserror = "*"
tracing = "0.1"
tracing-subscriber = { version = "0.3", features = ["env-filter"] }
