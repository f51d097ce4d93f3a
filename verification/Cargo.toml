[package]
name = "diffside"
version = "0.1.0"
edition = "2021"
publish = false

[dependencies]
similar = "=3.2.0"
console = "=0.16.6"
clap = { version = "=4.6.7", features = ["derive"] }
pager = "=0.16.1"
textwrap = { version = "=0.16.4", features = ["terminal_size"] }
