[package]
name = "tree_house"
version = "0.1.0"
edition = "2021"
publish = false

[dependencies]
arc-swap = "1"
hashbrown = "0.15"
once_cell = "1"
regex = "1"
regex-cursor = "0.1"
ropey = "1"
thiserror = "2"
