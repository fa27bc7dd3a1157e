[package]
name = "gw2_inventory"
version = "0.1.0"
edition = "2021"
publish = false

[dependencies]
anyhow = "1"
dialoguer = "0.11"
dotenv = "0.15"
fuzzy-matcher = "0.3"
home = "0.5"
log = "0.4"
pretty_env_logger = "0.5"
reqwest = { version = "0.12", default-features = false, features = ["blocking", "json"] }
serde = { version = "1", features = ["derive"] }
serde_json = "1"
termion = "1.5"
tui = { version = "0.19", default-features = false, features = ["termion"] }
unicode-width = "0.1"
