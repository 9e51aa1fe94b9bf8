[package]
name = "boa_fapi"
version = "0.1.0"
edition = "2021"
publish = false

[dependencies]
base64 = "0.22"
boa_engine = { version = "*", default-features = false }
boa_gc = "*"
bytes = "1"
encoding_rs = "0.8"
getrandom = "*"
thiserror = "2"
tracing = "0.1"
