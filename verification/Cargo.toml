[package]
name = "rocket_oidc"
version = "0.1.0"
edition = "2021"
publish = false

[dependencies]
rocket = { version = "0.5", features = ["secrets"] }
openidconnect = "2"
oauth2 = "4"
url = "2"
