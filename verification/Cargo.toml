[package]
name = "functus"
version = "0.1.0"
edition = "2021"
publish = false

[dependencies]
openapiv3 = "*"
serde_norway = "*"
thiserror = "*"
