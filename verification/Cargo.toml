[package]
name = "dungeon_solver"
version = "0.1.0"
edition = "2021"
publish = false

[dependencies]
anyhow = "1"
byteorder = "1"
enigo = "*"
lz4_flex = "*"
thiserror = "*"
walkdir = "2"
xcap = "*"
