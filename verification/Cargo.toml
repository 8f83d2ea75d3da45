[package]
name = "wl-harmonograph"
version = "0.1.0"
edition = "2021"
publish = false

[dependencies]
calloop = "0.13"
calloop-wayland-source = "0.3"
env_logger = "0.11"
glow = "0.16"
khronos-egl = { version = "6", features = ["static", "no-pkg-config"] }
log = "0.4"
rand = "0.8"
smithay-client-toolkit = { version = "0.19", default-features = false, features = ["calloop"] }
wayland-backend = { version = "0.3", features = ["client_system", "dlopen"] }
wayland-client = "0.31"
wayland-egl = "0.32"
