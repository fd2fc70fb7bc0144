[package]
name = "redwing"
version = "0.1.0"
edition = "2021"
publish = false

[dependencies]
lru = "*"
spin = "*"
heapless = "*"
hashbrown = "*"
lazy_static = "*"
riscv = "*"
