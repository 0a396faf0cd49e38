[package]
name = "timer_wheel"
version = "0.1.0"
edition = "2021"
publish = false

[dependencies]
heapless = "0.8"

[dev-dependencies]
cortex-m-rtfm = "0.4"
