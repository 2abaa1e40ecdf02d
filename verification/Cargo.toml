[package]
name = "yaminabe"
version = "0.1.0"
edition = "2021"
publish = false

[dependencies]
rocket = { version = "0.5", features = ["json"] }
serde = { version = "1", features = ["derive"] }
tokio = { version = "1", features = ["full"] }
once_cell = "1"
vibrato = "0.5"
zstd = "0.13"

[dev-dependencies]
rand = "0.8"
rand_pcg = "0.3"
