[package]
name = "chat_command"
version = "0.1.0"
edition = "2021"
publish = false

[dependencies]
indexmap = "*"
