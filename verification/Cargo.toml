[package]
name = "tri_boost_core"
version = "0.1.0"
edition = "2021"
publish = false

[dependencies]
rand = "0.8"
rand_pcg = "0.3"
rayon = "1"
serde = { version = "1", features = ["derive"] }
smallvec = "1"
thiserror = "1"
