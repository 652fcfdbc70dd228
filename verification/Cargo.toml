[package]
name = "ahc019"
version = "0.1.0"
edition = "2021"
publish = false

[dependencies]
rand = "0.7"
rand_pcg = "0.2"
smallvec = "1"
proconio = "0.3"
