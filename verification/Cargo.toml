[package]
name = "cahier"
version = "0.1.0"
edition = "2021"
publish = false

[dependencies]
image = { version = "*", default-features = false, features = ["png", "jpeg", "gif", "bmp", "webp"] }
uuid = { version = "*", features = ["v4"] }
chrono = { version = "*", features = ["serde"] }
flate2 = "*"
serde = { version = "*", features = ["derive"] }
serde_json = "*"
toml = "*"
directories = "*"
egui = "*"
eframe = { version = "*", default-features = false, features = ["glow", "wayland", "default_fonts"] }
arboard = "*"
rfd = "*"
fontdue = "*"
tiny-skia = "*"
raw-window-handle = "*"
wayland-client = "*"
wayland-backend = { version = "*", features = ["client_system", "dlopen"] }
wayland-protocols = { version = "*", features = ["client", "unstable", "staging"] }
