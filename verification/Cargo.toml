[package]
name = "rust_web"
version = "0.1.0"
edition = "2021"
publish = false

[dependencies]
anyhow = "1"
bitvec = "1"
env_logger = "*"
log = "0.4"
num = "*"
ordered-float = "*"
quizx = "*"
rayon = "1"
serde = { version = "1", features = ["derive"] }
serde_json = "1"
