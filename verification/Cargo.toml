[package]
name = "matrix_inversion"
version = "0.1.0"
edition = "2021"
publish = false

[dependencies]
clap = { version = "4", features = ["derive"] }
miette = { version = "5", features = ["fancy"] }
nalgebra = "0.32"
serde_json = "1"
thiserror = "1"
