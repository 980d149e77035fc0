[package]
name = "rover_core"
version = "0.1.0"
edition = "2021"
publish = false

[dependencies]
indexmap = "2"
fxhash = "0.2"
crossbeam = "0.8"
ron = "0.8"
nalgebra = "0.32"
ordered-float = "4"
rand = "0.8"
rand_distr = "0.4"
image = { version = "0.24", default-features = false }
spin_sleep = "1"
tokio = { version = "1", features = ["rt-multi-thread", "macros", "sync", "time", "signal", "fs"] }
rayon = "1"
anyhow = "1"
log = "0.4"
fern = "0.6"
humantime = "2"
serde = { version = "1", features = ["derive"] }
toml = "0.8"
clap = { version = "4", features = ["cargo"] }
heapless = "0.8"
