[package]
name = "boids"
version = "0.1.0"
edition = "2021"
publish = false

[dependencies]
rand = "=0.8.8"
bevy = { version = "=0.5.0", default-features = false }
bevy_canvas = "=0.1.0"
# Not called from any file here. bevy 0.5's derive crates use syn's "full" feature without
# asking for it; in edition 2021 nothing else switches it on for proc-macro builds, and this
# crate's own macro does.
darling = "=0.10.2"
