[package]
name = "windows_ctl"
version = "0.1.0"
edition = "2021"
publish = false

[dependencies]
hex = "*"
cab = "*"
clap = { version = "*", features = ["derive"] }
anyhow = "*"
indicatif = "*"
pem-rfc7468 = { version = "*", features = ["alloc"] }
reqwest = { version = "*", default-features = false, features = ["blocking"] }
serde = { version = "*", features = ["derive"] }
serde_json = "*"
x509-cert = "*"
