[package]
name = "mangameeya_reborn"
version = "0.1.0"
edition = "2021"
publish = false

[dependencies]
zip = { version = "=2.6.1", default-features = false, features = ["deflate"] }
image = { version = "=0.25.10", default-features = false, features = ["jpeg", "png", "webp", "bmp", "gif"] }
fast_image_resize = { version = "=5.5.0", default-features = false }
anyhow = "=1.0.104"
serde = { version = "=1.0.229", features = ["derive"] }
serde_json = "=1.0.154"
rayon = "=1.12.0"
sysinfo = { version = "=0.33.1", default-features = false, features = ["system"] }
winit = { version = "=0.30.13", default-features = false, features = ["x11", "rwh_06"] }
softbuffer = { version = "=0.4.8", default-features = false, features = ["x11", "x11-dlopen"] }
