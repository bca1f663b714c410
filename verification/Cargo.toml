[package]
name = "scene_chunks"
version = "0.1.0"
edition = "2021"
publish = false

[dependencies]
byteorder = "1"
id_tree = "1"
cgmath = "0.18"
