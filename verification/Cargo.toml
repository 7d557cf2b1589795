[package]
name = "can_transport"
version = "0.1.0"
edition = "2021"
publish = false

[dependencies]
cortex-m = "=0.7.9"
embedded_types = "=0.3.2"
s32k144 = "=0.10.0"
s32k144evb = { version = "=0.8.0", default-features = false }
