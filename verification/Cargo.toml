[package]
name = "suballoc"
version = "0.1.0"
edition = "2021"
publish = false

[dependencies]
bytemuck = "1"
rand = "0.9"
rustc-hash = "2"
