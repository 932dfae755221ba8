[package]
name = "papercast"
version = "0.1.0"
edition = "2021"
publish = false

[dependencies]
fast_image_resize = "=6.1.0"
zstd = "=0.13.4"
serde = { version = "=1.0.229", features = ["derive"] }
serde_json = "=1.0.154"
toml = "=1.1.8"
clap = { version = "=4.6.7", features = ["derive"] }
tokio = { version = "=1.54.1", features = ["full"] }
anyhow = "=1.0.104"
tracing = "=0.1.44"
tracing-subscriber = { version = "=0.3.23", features = ["env-filter"] }
notify = "=8.2.1"
image = { version = "=0.25.10", default-features = false, features = ["png"] }
rustix = { version = "=1.1.6", features = ["process", "fs"] }
wayland-client = "=0.31.15"
wayland-protocols = { version = "=0.32.13", features = ["client", "staging"] }
memmap2 = "=0.9.12"
rustvncserver = "=2.2.1"
jni = "=0.21.1"
