[package]
name = "glyph_cache"
version = "0.1.0"
edition = "2021"
publish = false

[dependencies]
earcutr = "*"
glam = "*"
glam_rect = "*"
log = "*"
owned_ttf_parser = "*"
