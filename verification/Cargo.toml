[package]
name = "amrex_rs"
version = "0.1.0"
edition = "2021"

[dependencies]
anyhow = "1"
glam = "*"
memmap2 = "0.9"
rayon = "1"
rkyv = "0.8"
