[package]
name = "osm_index"
version = "0.1.0"
edition = "2021"
publish = false

[dependencies]
anyhow = "1"
axum = "0.7"
clap = { version = "4", features = ["derive"] }
dashmap = "6"
osmpbf = "0.3"
parking_lot = "0.12"
pprof = { version = "0.13", features = ["flamegraph"] }
rayon = "1"
roaring = "0.10"
rstar = "0.12"
rustc-hash = "2"
serde = { version = "1", features = ["derive"] }
tokio = { version = "1", features = ["rt-multi-thread", "macros", "net"] }
toml = "0.8"
tracing = "0.1"
tracing-subscriber = "0.3"
zstd = "0.13"
