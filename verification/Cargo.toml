[package]
name = "hmtl-kernel"
version = "0.1.0"
edition = "2021"
publish = false

[dependencies]
bytemuck = { version = "1", features = ["derive"] }
libc = "0.2"
num_cpus = "1"
thiserror = "1"
