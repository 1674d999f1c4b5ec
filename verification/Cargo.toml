[package]
name = "bulk_book"
version = "0.1.0"
edition = "2021"
publish = false

[dependencies]
hashbrown = "*"
slab = "*"
