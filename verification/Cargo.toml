[package]
name = "pixel_carrierconfig_toolbox"
version = "0.1.0"
edition = "2021"
publish = false

[dependencies]
sha2 = "0.10"
lz4_flex = "0.11"
crc32fast = "1"
indexmap = { version = "2", features = ["serde"] }
anyhow = "1"
clap = { version = "4", features = ["derive"] }
rusqlite = "*"
serde = { version = "1", features = ["derive"] }
toml = "0.8"
zip = "2"
thiserror = "2"
