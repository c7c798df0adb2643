[package]
name = "mcp"
version = "0.1.0"
edition = "2021"
publish = false

[dependencies]
docopt = "*"
serde = { version = "*", features = ["derive"] }

[dev-dependencies]
byteorder = "*"
