[package]
name = "pdfrs"
version = "0.1.0"
edition = "2021"
publish = false

[dependencies]
byteorder = "1"
unicode-linebreak = "*"
serde = { version = "1", features = ["derive"] }
chrono = "0.4"
uuid = { version = "1", features = ["v4"] }
thiserror = "1"
