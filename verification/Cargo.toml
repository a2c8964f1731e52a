[package]
name = "rustiferin"
version = "0.1.0"
edition = "2021"
publish = false

[dependencies]
anyhow = "=1.0.104"
arc-swap = "=1.9.3"
ashpd = { version = "=0.9.3", default-features = false, features = ["tokio"] }
async-trait = "=0.1.92"
clap = { version = "=4.6.7", features = ["derive"] }
futures-util = "=0.3.34"
gbm = "=0.18.0"
glow = "=0.14.2"
itoa = "=1.0.18"
khronos-egl = { version = "=6.0.0", features = ["static"] }
ksni = "=0.3.7"
nix = { version = "=0.31.3", features = ["socket", "uio"] }
pipewire = "=0.9.2"
rumqttc = "=0.25.1"
serde = { version = "=1.0.229", features = ["derive"] }
serde_yaml_ng = "=0.10.0"
thiserror = "=2.0.21"
tokio = { version = "=1.54.1", features = ["full"] }
tokio-util = "=0.7.20"
tracing = "=0.1.44"
tracing-subscriber = { version = "=0.3.23", features = ["env-filter"] }
url = "=2.5.8"
wayland-client = "=0.31.15"
wayland-protocols = { version = "=0.32.13", features = ["client", "staging"] }
zbus = "=5.19.0"
