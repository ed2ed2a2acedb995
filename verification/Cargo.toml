[package]
name = "garment_orient"
version = "0.1.0"
edition = "2021"
publish = false

[dependencies]
jagua-rs = { version = "0.7", features = ["spp"] }
rand = "=0.10.3"
rand_distr = "=0.6.0"
slotmap = "=1.1.1"
itertools = "=0.15.0"
ordered-float = "=5.5.1"
float-cmp = "=0.10.0"
log = "=0.4.35"
