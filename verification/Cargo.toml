[package]
name = "davis_edi"
version = "0.1.0"
edition = "2021"
publish = false

[dependencies]
aedat = "=1.3.3"
nalgebra = "=0.35.0"
num-traits = "=0.2.19"
simple-error = "=0.3.3"
thiserror = "=1.0.69"

[dev-dependencies]
flatbuffers = "=2.1.2"
