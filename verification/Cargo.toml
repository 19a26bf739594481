[package]
name = "wikipath"
version = "0.1.0"
edition = "2021"
publish = false

[dependencies]
diesel = { version = "*", features = ["postgres"] }
dotenv = "*"
