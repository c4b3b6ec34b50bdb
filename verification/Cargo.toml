[package]
name = "gh_token_switch"
version = "0.1.0"
edition = "2021"
publish = false

[dependencies]
anyhow = "1"
clap = { version = "4", features = ["derive"] }
dirs = "5"
keyring = { version = "3", features = ["apple-native", "linux-native", "windows-native"] }
rpassword = "7"
serde = { version = "1", features = ["derive"] }
sha2 = "0.10"
toml = "0.8"
