[package]
name = "yaros"
version = "0.1.0"
edition = "2021"
publish = false

[dependencies]
xmas-elf = "=0.7.0"
riscv = "=0.6.0"
spin = "=0.7.2"
lazy_static = { version = "=1.5.1", features = ["spin_no_std"] }
virtio-drivers = "=0.1.0"
bytemuck = "1"
