[package]
name = "digishield_sim"
version = "0.1.0"
edition = "2021"
publish = false

[dependencies]
base64 = "0.22"
plotters = { version = "0.3", default-features = false, features = ["line_series"] }
plotters-bitmap = { version = "0.3", default-features = false }
rand = "0.8"
