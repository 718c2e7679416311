[package]
name = "fcnt"
version = "0.2.6"
edition = "2021"
publish = false

[dependencies]
clap = { version = "*", features = ["derive"] }
flume = "*"
num_cpus = "*"
regex = "*"
