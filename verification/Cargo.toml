[package]
name = "adblock"
version = "0.1.0"
edition = "2021"
publish = false

[dependencies]
cssparser = "0.25"
idna = "0.1"
psl = "2"
regex = "1"
selectors = "0.21"
serde = { version = "1", features = ["derive"] }
