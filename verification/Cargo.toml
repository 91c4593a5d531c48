[package]
name = "desktop_index"
version = "0.1.0"
edition = "2021"
publish = false

[dependencies]
xdgkit = "=3.2.5"
serde_json = "=1.0.151"
tini = "=1.3.0"
