[package]
name = "texman"
version = "0.1.0"
edition = "2021"
publish = false

[dependencies]
anyhow = "1"
bincode = "1"
chrono = "0.4"
clap = { version = "4", features = ["derive"] }
dirs = "5"
env_logger = "0.11"
futures = "0.3"
indicatif = "0.17"
log = "0.4"
rayon = "1"
reqwest = { version = "0.12", default-features = false, features = ["stream"] }
rusqlite = { version = "0.31", features = ["bundled"] }
serde = { version = "1", features = ["derive"] }
tar = "0.4"
tokio = { version = "1", features = ["macros", "rt-multi-thread"] }
xz2 = "0.1"
