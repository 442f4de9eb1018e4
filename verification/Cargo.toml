[package]
name = "cull"
version = "0.1.0"
edition = "2021"
publish = false

[dependencies]
bytemuck = { version = "1", features = ["derive"] }
egui = { version = "=0.35.0", default-features = false, features = ["default_fonts"] }
egui-wgpu = { version = "=0.35.0", default-features = false }
egui-winit = { version = "=0.35.0", default-features = false, features = ["wayland", "x11"] }
env_logger = { version = "=0.11.11", default-features = false }
jpeg-decoder = { version = "=0.3.2", default-features = false }
log = "0.4"
memmap2 = "=0.9.12"
pollster = "=1.0.1"
rayon = "=1.12.0"
trash = { version = "=5.2.9", default-features = false }
wgpu = { version = "=29.0.4", default-features = false, features = ["vulkan", "wgsl", "std"] }
winit = { version = "=0.30.13", default-features = false, features = ["x11", "wayland", "wayland-dlopen", "rwh_06"] }
zune-core = "=0.5.3"
zune-jpeg = "=0.5.15"
