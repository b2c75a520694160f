[package]
name = "symlinks_database"
version = "0.1.0"
edition = "2021"
publish = false

[dependencies]
rusqlite = "*"
shellexpand = "*"
clap = { version = "4", features = ["derive"] }
directories = "*"
indicatif = "*"
rayon = "*"
serde = { version = "1", features = ["derive"] }
toml = "*"
walkdir = "2"
thiserror = "*"
