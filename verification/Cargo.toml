[package]
name = "enject"
version = "0.1.0"
edition = "2021"
publish = false

[dependencies]
aes-gcm = "0.10"
argon2 = "0.5"
clap = { version = "4", features = ["derive"] }
rand = "0.8"
rpassword = "7"
secrecy = "0.8"
serde = { version = "1", features = ["derive"] }
thiserror = "1"
toml = "0.8"
zeroize = "1"

[dev-dependencies]
hex = "0.4"
