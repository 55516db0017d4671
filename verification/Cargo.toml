[package]
name = "morg"
version = "0.1.0"
edition = "2021"
publish = false

[dependencies]
adb_client = "*"
anyhow = "1"
audiotags = "*"
clap = { version = "4", features = ["derive"] }
counter = "*"
directories = "*"
distance = "0.4"
fs_extra = "1"
indicatif = "*"
json = "0.12"
pathdiff = "0.2"
regex = "1"
reqwest = { version = "0.12", default-features = false, features = ["blocking", "rustls-tls"] }
serde = { version = "1", features = ["derive"] }
tokio = { version = "1", features = ["rt-multi-thread"] }
toml = "*"
zeroize = { version = "1", features = ["derive"] }
