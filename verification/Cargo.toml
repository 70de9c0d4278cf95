[package]
name = "mapscii"
version = "0.1.0"
edition = "2021"
publish = false

[dependencies]
anyhow = "1"
clap = { version = "4", features = ["derive"] }
crossterm = "0.29"
dirs = "6"
earcutr = "0.4"
flate2 = "1"
futures = "0.3"
geojson = "0.24"
log = "0.4"
lru = "0.12"
prost = "0.13"
ratatui = { version = "0.30", features = ["crossterm"] }
reqwest = { version = "0.12", default-features = false, features = ["rustls-tls"] }
rstar = "0.12"
rusqlite = { version = "0.32", features = ["bundled"] }
serde_json = "1"
thiserror = "2"
tokio = { version = "1", features = ["full"] }
unicode-width = "0.2"
