[package]
name = "lattice_bridge"
version = "0.2.0"
edition = "2021"
publish = false

[dependencies]
horned-owl = "1"
strsim = "0.11"
serde = { version = "1", features = ["derive"] }
serde_json = "1"
thiserror = "2"
clap = { version = "4", features = ["derive"] }
