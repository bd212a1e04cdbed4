[package]
name = "broodcasc"
version = "0.1.0"
edition = "2021"
publish = false

[dependencies]
md-5 = "0.10"
miniz_oxide = "0.8"
globset = "0.4"
clap = { version = "4", features = ["derive"] }
ureq = "3"
thiserror = "2"
anyhow = "1"
