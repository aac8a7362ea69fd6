[package]
name = "fm_verified"
version = "0.1.0"
edition = "2021"
publish = false

[dependencies]
rustc-hash = "*"
egg = "*"
serde = { version = "*", features = ["derive"] }
serde_json = "*"
thiserror = "*"
fnx-algorithms = "*"
franken-kernel = "*"
