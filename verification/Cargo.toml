[package]
name = "auto_excel"
version = "0.1.0"
edition = "2021"
publish = false

[dependencies]
chrono = "0.4"
calamine = "*"
rust_xlsxwriter = "*"
serde = { version = "1", features = ["derive"] }
serde_json = "1"
uuid = { version = "1", features = ["v4"] }
