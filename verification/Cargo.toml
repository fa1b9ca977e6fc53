[package]
name = "mininn_verifier"
version = "0.1.0"
edition = "2021"
publish = false

[dependencies]
clap = { version = "*", features = ["derive"] }
libm = "*"
ndarray = "*"
rand = "*"
rand_distr = "*"
serde = { version = "*", features = ["derive"] }
serde_json = "*"
thiserror = "*"
zip = { version = "*", default-features = false }
