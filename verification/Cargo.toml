[package]
name = "sequencer"
version = "0.1.0"
edition = "2021"
publish = false

[dependencies]
slotmap = "=1.1.1"
num-rational = "=0.4.2"
num-traits = "=0.2.19"
num-bigint = "=0.4.8"
crossbeam = "=0.8.5"
derive_more = "=0.99.20"
cpal = "=0.13.4"
iced = "=0.3.0"
iced_native = "=0.4.0"
iced_wgpu = "=0.4.0"
iced_graphics = { version = "=0.2.0", features = ["canvas"] }
