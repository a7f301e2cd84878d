[package]
name = "dylibtree"
version = "0.1.0"
edition = "2021"
publish = false

[dependencies]
goblin = "=0.10.7"
libc = "=0.2.191"
scroll = "=0.13.0"

[dev-dependencies]
regex = "=1.13.1"
