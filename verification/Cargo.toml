[package]
name = "breakcore"
version = "0.1.0"
edition = "2021"
publish = false

[dependencies]
object = { version = "*", default-features = false, features = ["read_core", "elf", "unaligned"] }
riscv = "*"
spin = "*"
lazy_static = "*"
log = "*"
buddy_system_allocator = "*"
