[package]
name = "linefreq"
version = "0.1.0"
edition = "2021"
publish = false

[dependencies]
regex = "1"
lazysort = "*"
clap = { version = "4", features = ["derive"] }
crossterm = "0.28"
ex = "*"
exitcode = "1"
