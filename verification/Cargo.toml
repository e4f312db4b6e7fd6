[package]
name = "simple_unc"
version = "0.1.0"
edition = "2021"
publish = false

[dependencies]
anyhow = "=1.0.104"
dunce = "=1.0.5"
windows = { version = "=0.58.0", features = ["Win32_Foundation", "Win32_Storage_FileSystem"] }
