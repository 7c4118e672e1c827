[package]
name = "duprestore"
version = "0.1.0"
edition = "2021"
publish = false

[dependencies]
base64 = "*"
zip = { version = "*", default-features = false, features = ["deflate"] }
sha2 = "*"
serde = { version = "*", features = ["derive"] }
serde_json = "*"
serde_path_to_error = "*"
clap = { version = "*", features = ["derive"] }
rayon = "*"
eyre = "*"
indicatif = "*"
pbr = "*"
