[package]
name = "copc"
version = "0.9.0"
edition = "2021"
publish = false

[dependencies]
las = { version = "0.10", features = ["laz"] }
laz = "0.12"
memmap2 = "0.9"
rayon = "1"
tempfile = "3"
thiserror = "2"
ureq = { version = "3", default-features = false }
