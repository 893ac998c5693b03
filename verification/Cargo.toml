[package]
name = "fst_reader"
version = "0.1.0"
edition = "2021"
publish = false

[dependencies]
miniz_oxide = "0.8"
lz4_flex = "0.11"
