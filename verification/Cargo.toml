[package]
name = "sceua"
version = "0.1.1"
edition = "2021"
publish = false

[dependencies]
rayon = "1"
geo = { version = "*", default-features = false }
rstar = "0.12"
