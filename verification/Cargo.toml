[package]
name = "rupes"
version = "0.1.0"
edition = "2021"
publish = false

[dependencies]
base16ct = { version = "0.1", features = ["alloc"] }
md-5 = "0.10"
sha2 = "0.10"
regex = "1"
rayon = "1"
clap = { version = "3", features = ["derive"] }
console = "0.15"
indicatif = "0.17"
