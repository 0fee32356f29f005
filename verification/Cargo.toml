[package]
name = "sgm-stereo"
version = "0.1.0"
edition = "2021"
publish = false

[dependencies]
kornia-image = "*"
thiserror = "*"
image = "*"
