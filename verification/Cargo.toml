[package]
name = "zgui"
version = "0.1.0"
edition = "2021"
publish = false

[dependencies]
bytemuck = "=1.25.2"
glow = "=0.17.0"
khronos-egl = { version = "=6.0.0", features = ["dynamic"] }
kurbo = "=0.13.1"
libloading = "=0.9.0"
peniko = "=0.6.1"
rustc-hash = "=2.1.3"
rustix = { version = "=1.1.6", features = ["event", "std"] }
smallvec = "=1.16.4"
tracing = "=0.1.44"
wgpu = "=30.0.1"
