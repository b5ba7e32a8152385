[package]
name = "catpack"
version = "0.1.0"
edition = "2021"
publish = false

[dependencies]
clap = { version = "=4.6.7", features = ["derive"] }
ddsfile = "=0.5.2"
image = { version = "=0.25.10", default-features = false, features = ["png"] }
image_dds = { version = "=0.7.2", default-features = false, features = ["ddsfile", "image"] }
serde = { version = "=1.0.229", features = ["derive"] }
serde_json = "=1.0.151"
texpresso = "*"
