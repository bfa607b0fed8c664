[package]
name = "glicol_synth"
version = "0.1.0"
edition = "2021"
publish = false

[dependencies]
hashbrown = "=0.14.5"
dasp_ring_buffer = "=0.11.0"
dasp_signal = "=0.11.0"
dasp_interpolate = { version = "=0.11.0", features = ["linear", "sinc"] }
dasp_graph = "=0.11.0"
petgraph = { version = "=0.6.5", default-features = false, features = ["stable_graph"] }
apodize = "=1.0.0"
boingboingboing = "=0.1.2"
freeverb = "=0.2.0"
evalexpr = "=13.1.0"
fasteval = "=0.2.4"
rhai = { version = "=1.27.0", features = ["sync", "f32_float"] }
