[package]
name = "li_chao_tree"
version = "0.1.0"
edition = "2021"

[dependencies]

[dev-dependencies]
rand = { version = "0.9", default-features = false, features = ["std_rng"] }
