[package]
name = "marta_gtfs_rt"
version = "0.1.0"
edition = "2021"
publish = false

[dependencies]
chrono = "=0.4.45"
chrono-tz = "=0.10.4"
gtfs-realtime = "=0.2.0"
gtfs-structures = { version = "=0.46.1", default-features = false }
prost = "=0.14.4"
reqwest = { version = "=0.12.28", default-features = false, features = ["json", "rustls-tls"] }
serde = { version = "=1.0.229", features = ["derive"] }
tokio = { version = "=1.54.1", features = ["fs", "time", "rt", "macros"] }
