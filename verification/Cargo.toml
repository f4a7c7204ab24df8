[package]
name = "melib"
version = "0.1.0"
edition = "2021"
publish = false

[dependencies]
fnv = "=1.0.7"
unicode-segmentation = "=1.13.3"
serde = { version = "1", features = ["derive"] }
toml = "*"
termion = "*"
crossbeam = "*"
xdg = "*"
