[package]
name = "lhef"
version = "0.1.0"
edition = "2021"
publish = false

[dependencies]
nom = "3"
serde = { version = "1", features = ["derive"] }

[dev-dependencies]
quickcheck = { version = "1", default-features = false }
