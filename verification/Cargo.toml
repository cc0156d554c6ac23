[package]
name = "pkdtree"
version = "0.1.0"
edition = "2021"
publish = false

[dependencies]
rand = "*"
rayon = "*"
rayon-scan = "*"
rdst = "*"
kd-tree = { version = "*", features = ["rayon"] }
ordered-float = "*"
