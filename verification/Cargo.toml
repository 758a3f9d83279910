[package]
name = "janus"
version = "0.1.0"
edition = "2021"
publish = false

[dependencies]
anyhow = "1"
clap = { version = "4", features = ["derive"] }
ignore = "0.4"
indicatif = "0.17"
num_cpus = "1"
rayon = "1"
sha2 = "0.10"
thiserror = "*"
