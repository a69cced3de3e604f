[package]
name = "bn254_msm"
version = "0.1.0"
edition = "2021"
publish = false

[dependencies]
ark-bn254 = "=0.5.0"
ark-ec = "=0.5.0"
ark-ff = "=0.5.0"
rayon = "=1.12.0"
rug = "=1.30.0"
lll-rs = "=0.2.0"
serde = "=1.0.229"

[dev-dependencies]
ark-std = { version = "=0.5.0", features = ["std"] }
