[package]
name = "arpentry"
version = "0.1.0"
edition = "2021"
publish = false

[dependencies]
brotli = { version = "=9.1.1", features = ["portable-float"] }
flatbuffers = "=25.12.19"
geo-types = "=0.7.20"
spade = "=2.15.1"
