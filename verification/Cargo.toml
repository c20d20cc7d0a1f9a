[package]
name = "aarch64_kernel"
version = "0.1.0"
edition = "2021"
publish = false

[dependencies]
spin = "=0.12.3"
lazy_static = { version = "=1.5.1", features = ["spin_no_std"] }
cortex-a = { version = "=8.1.1", default-features = false }
register = "=0.5.1"
tock-registers = "=0.10.1"
r0 = "=1.0.0"
