[package]
name = "git-branchless-move"
version = "0.10.0"
edition = "2021"
publish = false

[dependencies]
esl01-dag = { version = "=0.3.0", default-features = false }
eyre = "=0.6.14"
rayon = "=1.12.0"
tracing = "=0.1.44"
