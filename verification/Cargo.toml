[package]
name = "apcalc"
version = "0.1.0"
edition = "2021"
publish = false

[dependencies]
rug = { version = "=1.30.0", default-features = false, features = ["float", "std"] }
clap = { version = "=4.6.7", features = ["derive"] }
chumsky = "0.10"
logos = "0.15"
