[package]
name = "flow_synth"
version = "0.1.0"
edition = "2021"
publish = false

[dependencies]
cassowary = "=0.3.0"
crossbeam = "=0.8.5"
futures = { version = "=0.3.34", features = ["thread-pool"] }
gfx = "=0.18.3"
gfx_device_gl = "=0.16.2"
gfx_window_glutin = "=0.31.0"
glutin = "=0.21.2"
jack = "=0.13.5"
ndarray = "=0.12.1"
nfd = "=0.0.4"
notify = "=4.0.18"
num = "=0.2.1"
ron = "=0.8.1"
serde = { version = "=1.0.229", features = ["derive"] }
