[package]
name = "steganer"
version = "0.1.0"
edition = "2021"
publish = false

[dependencies]
bitreader = "0.3"
image = { version = "0.25", default-features = false, features = ["png", "bmp", "pnm"] }
clap = "2"
error-chain = { version = "0.12", default-features = false }

[dev-dependencies]
byteorder = "1"
