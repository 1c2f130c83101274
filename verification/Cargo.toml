[package]
name = "packed_data"
version = "0.1.0"
edition = "2021"
publish = false

[dependencies]
blake3 = "*"
bytemuck = "*"
bytemuck_derive = "*"
memmap2 = "*"
thiserror = "*"
