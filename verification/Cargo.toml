[package]
name = "dispersion"
version = "0.1.0"
edition = "2021"
publish = false

[dependencies]
fastrand = "=2.5.0"
clap = { version = "=4.6.7", features = ["derive"] }
cplex-sys = "*"
