[package]
name = "todo_store"
version = "0.1.0"
edition = "2021"
publish = false

[dependencies]
clap = "2"
term = "0.7"
xdg = "2"
