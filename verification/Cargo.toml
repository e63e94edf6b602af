[package]
name = "rcore_kernel"
version = "0.1.0"
edition = "2021"
publish = false

[dependencies]
xmas-elf = "0.7"
riscv = "*"
lazy_static = "1.4"
spin = "0.7"
