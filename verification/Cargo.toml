[package]
name = "semilattice"
version = "0.1.0"
edition = "2021"
publish = false

[dependencies]
num-traits = "=0.2.19"
minicbor = { version = "=2.3.1", features = ["std", "derive", "half"] }
blake3 = "=1.8.7"
git2 = { version = "=0.21.0", default-features = false }
pico-args = "=0.5.0"
