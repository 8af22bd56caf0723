[package]
name = "wclipd"
version = "0.1.0"
edition = "2021"
publish = false

[dependencies]
base64 = "=0.23.1"
kv = "=0.24.0"
lastlog = { version = "=0.2.3", features = ["libc"] }
xdg-mime = "=0.4.0"
serde = { version = "*", features = ["derive"] }
serde_json = "*"
serde_yaml = "*"
clap = { version = "*", features = ["derive"] }
thiserror = "*"
log = "*"
env_logger = "*"
daemonize = "*"
humantime = "*"
shellexpand = "*"
xdg = "*"
edit = "*"
wayland-clipboard-listener = "=0.6.1"
