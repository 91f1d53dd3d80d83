[package]
name = "apecs"
version = "0.1.0"
edition = "2021"
publish = false

[dependencies]
smallvec = "=1.16.4"
async-channel = "=2.5.0"
moongraph = "=0.4.3"
log = "=0.4.35"
rayon = "=1.12.0"
any_vec = "=0.15.0"
anyhow = "1"
