[package]
name = "mp4_combine"
version = "0.1.0"
edition = "2021"
publish = false

[dependencies]
jni = "0.19"
