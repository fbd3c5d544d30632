[package]
name = "gw2_dat_tool"
version = "0.1.0"
edition = "2021"
publish = false

[dependencies]
anyhow = "1"
byteorder = "1"
clap = { version = "4", features = ["derive"] }
fontdue = "0.9"
image = { version = "0.25", default-features = false, features = ["png"] }
