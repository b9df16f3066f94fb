[package]
name = "strings"
version = "0.1.0"
edition = "2021"
publish = false

[dependencies]
atty = "=0.2.14"
clap = { version = "=3.2.25", features = ["derive"] }
object = { version = "=0.29.0", default-features = false, features = ["read", "std"] }
