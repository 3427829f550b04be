[package]
name = "winnow"
version = "0.1.0"
edition = "2021"
publish = false

[dependencies]
anyhow = "1"
clap = { version = "4", features = ["derive"] }
iced-x86 = { version = "1.21", default-features = false, features = ["std", "decoder", "instr_info"] }
memchr = "2.7"
object = "0.36"
serde = { version = "1", features = ["derive"] }
serde_json = "1"
sha2 = "0.10"
