[package]
name = "wordle_core"
version = "0.1.0"
edition = "2021"
publish = false

[dependencies]
rand = "0.8"
clap = { version = "4", features = ["derive"] }
console = "0.15"
atty = "0.2"
text_io = "0.1"
serde = { version = "1", features = ["derive"] }
serde_json = "1"
