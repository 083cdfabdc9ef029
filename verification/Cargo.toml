[package]
name = "cs2-analysis-engine"
version = "0.1.0"
edition = "2021"
publish = false

[dependencies]
anyhow = "1"
clap = { version = "4", features = ["derive"] }
hex = "0.4"
iced-x86 = { version = "1.21", default-features = false, features = ["std", "decoder", "nasm"] }
object = { version = "0.36", default-features = false, features = ["read", "std"] }
serde = { version = "1", features = ["derive"] }
serde_json = "1"
sysinfo = "0.33"
