[package]
name = "traduora_update"
version = "0.1.0"
edition = "2021"
publish = false

[dependencies]
anyhow = "*"
encoding_rs = "*"
env_logger = "*"
git2 = { version = "*", default-features = false }
json_comments = "*"
log = "*"
once_cell = "*"
schemars = "*"
serde = { version = "*", features = ["derive"] }
serde_json = "*"
traduora = "*"
