[package]
name = "mmk"
version = "0.1.0"
edition = "2021"
publish = false

[dependencies]
tiny-keccak = { version = "2.0", features = ["sha3"] }
aes-gcm = "0.10"
spin = "0.9"
lazy_static = "1.4"
buddy_system_allocator = "0.9"
riscv = "0.10"
