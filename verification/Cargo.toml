[package]
name = "burin_core"
version = "0.1.0"
edition = "2021"
publish = false

[dependencies]
sha2 = "*"
serde = { version = "*", features = ["derive"] }
serde_json = "*"
libm = "*"
geo = "*"
rstar = "*"
robust = "*"
thiserror = "*"
