[package]
name = "vitals-rain"
version = "0.1.0"
edition = "2021"
publish = false

[dependencies]
smithay-client-toolkit = { version = "=0.19.2", default-features = false, features = ["calloop"] }
calloop = "=0.13.0"
wayland-client = "=0.31.15"
wayland-egl = "=0.32.11"
# Not called directly: enabling `dlopen` on the system bindings that
# wayland-egl pulls in makes them load libwayland at run time instead of
# linking it at build time, so the program builds without those libraries.
wayland-sys = { version = "=0.31.11", features = ["dlopen", "egl", "client"] }
khronos-egl = { version = "=6.0.0", features = ["dynamic"] }
gl = "=0.14.0"
