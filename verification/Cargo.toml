[package]
name = "ropey"
version = "0.1.0"
edition = "2021"
publish = false

[dependencies]
fnv = "=1.0.7"
proptest = "=1.12.0"
quickcheck = "=1.1.0"
crabcheck = "=0.2.0"
hegeltest = "=0.51.0"
rand = "=0.10.3"
