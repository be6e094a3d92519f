[package]
name = "visor_md"
version = "0.1.0"
edition = "2021"
publish = false

[dependencies]
ropey = "=1.6.1"
atomicwrites = "=0.4.4"
tiny-skia = "=0.12.0"
comrak = { version = "*", default-features = false }
