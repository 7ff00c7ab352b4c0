[package]
name = "automata"
version = "0.1.0"
edition = "2021"
publish = false

[dependencies]
itertools = "=0.15.0"
tabled = { version = "=0.22.0", default-features = false, features = ["std"] }
