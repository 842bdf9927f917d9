[package]
name = "libcgroups"
version = "0.1.0"
edition = "2021"
publish = false

[dependencies]
oci-spec = { version = "0.7", default-features = false, features = ["runtime"] }
tracing = "0.1"
