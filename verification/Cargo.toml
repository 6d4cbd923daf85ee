[package]
name = "los"
version = "0.1.0"
edition = "2021"
publish = false

[dependencies]
xmas-elf = "*"
spin = "*"
lazy_static = "*"
bitflags = "*"
riscv = "*"
sbi-rt = "*"
clap = { version = "*", features = ["derive"] }
