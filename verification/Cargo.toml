[package]
name = "rendersloth"
version = "0.1.0"
edition = "2021"
publish = false

[dependencies]
glam = "0.24"
kd-tree = "0.5"
typenum = "1"
crossterm = "0.27"
clap = { version = "4", features = ["derive"] }
tobj = "3"
stl_io = "0.7"
