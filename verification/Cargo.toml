[package]
name = "pagescan"
version = "0.1.0"
edition = "2021"
publish = false

[dependencies]
anyhow = "=1.0.104"
aobscan = "=0.3.0"
clap = { version = "=4.6.7", features = ["derive"] }
hex = "=0.4.3"
memflow = "=0.2.4"
memflow-qemu = "=0.2.1"
memflow-win32 = "=0.2.0"

[dev-dependencies]
x86 = "=0.52.0"
