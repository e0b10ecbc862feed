[package]
name = "czdb"
version = "0.1.0"
edition = "2021"
publish = false

[dependencies]
aes = "=0.8.4"
base64 = "=0.22.1"
chrono = "=0.4.45"
cipher = { version = "=0.4.4", features = ["block-padding"] }
memmap2 = "=0.9.11"
thiserror = "=2.0.21"

[dev-dependencies]
rmpv = "=1.3.1"
