[package]
name = "oxih5"
version = "0.1.0"
edition = "2021"
publish = false

[dependencies]
memmap2 = "=0.9.12"
ndarray = "=0.16.1"
oxiarc-deflate = "*"
rayon = "=1.12.0"
thiserror = "=2.0.21"
