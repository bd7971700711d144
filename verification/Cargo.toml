[package]
name = "vortex-mesh"
version = "0.1.0"
edition = "2021"
publish = false

[dependencies]
clap = { version = "=4.6.7", features = ["derive"] }
glam = "=0.33.12"
tobj = "=4.0.5"
vortex-project = "=1.0.3"
