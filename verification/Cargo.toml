[package]
name = "nexos"
version = "0.1.0"
edition = "2021"
publish = false

[dependencies]
cfg-if = "=1.0.5"
lazy_static = { version = "=1.5.1", features = ["spin_no_std"] }
limine = "=0.5.0"
spin = "=0.9.9"
x2apic = "=0.5.1"
x86_64 = { version = "=0.15.5", default-features = false, features = ["instructions"] }
