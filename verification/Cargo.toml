[package]
name = "brainfuck"
version = "0.1.0"
edition = "2021"
publish = false

[dependencies]
anyhow = "*"
clap = { version = "*", features = ["derive"] }
clap-repl = "*"
dynasm = "*"
dynasmrt = "*"
env_logger = "*"
libc = "*"
log = "*"
thiserror = "*"
