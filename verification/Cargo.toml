[package]
name = "prime_resonance"
version = "0.1.0"
edition = "2021"
publish = false

[dependencies]
itertools = "*"
primal = "*"
rayon = "*"
regex = "*"
sha2 = "*"
zip = "*"
