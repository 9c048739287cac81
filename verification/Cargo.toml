[package]
name = "exec_shell"
version = "0.1.0"
edition = "2021"
publish = false

[dependencies]
trie-rs = "=0.4.2"
crossterm = "=0.29.0"
