[package]
name = "vcbgen"
version = "0.1.0"
edition = "2021"
publish = false

[dependencies]
base64 = "*"
sha1_smol = "*"
zstd = "*"
clap = { version = "*", features = ["derive"] }
serde_json = "*"
