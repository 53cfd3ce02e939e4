[package]
name = "todo_bin"
version = "0.1.0"
edition = "2021"
publish = false

[dependencies]
colored = "*"
directories = "*"
serde = { version = "*", features = ["derive"] }
toml = "*"
