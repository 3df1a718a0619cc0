[package]
name = "cubegroup"
version = "0.1.0"
edition = "2021"
publish = false

[dependencies]
bytemuck = "*"
forward_ref_generic = "*"
itertools = "*"
thiserror = "*"
