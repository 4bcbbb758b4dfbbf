[package]
name = "snp_extractor"
version = "0.1.0"
edition = "2021"
publish = false

[dependencies]
seq_io = "0.4.0-alpha.0"
clap = { version = "4", features = ["derive"] }
thiserror = "1"
