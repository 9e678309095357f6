[package]
name = "sv39_kernel"
version = "0.1.0"
edition = "2021"
publish = false

[dependencies]
xmas-elf = "0.7"
log = "0.4"
riscv = "0.10"
lazy_static = "1.4"
