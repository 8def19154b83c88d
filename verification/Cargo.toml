[package]
name = "json_simple_obfuscator"
version = "0.1.0"
edition = "2021"
publish = false

[dependencies]
aho-corasick = "1"
anyhow = "1"
clap = { version = "4", features = ["derive"] }
cliclack = "*"
serde_json = "1"
