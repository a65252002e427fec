[package]
name = "mesh"
version = "0.1.0"
edition = "2021"
publish = false

[dependencies]
clap = { version = "*", features = ["derive"] }
nalgebra = "*"
ordered-float = "*"
rand = "*"
rand_distr = "*"
tobj = "*"
