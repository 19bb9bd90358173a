[package]
name = "logins"
version = "0.1.0"
edition = "2021"
publish = false

[dependencies]
url = "2"
rand = "0.8"
base64 = "0.22"
rusqlite = { version = "0.31", features = ["bundled", "limits"] }
