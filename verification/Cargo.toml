[package]
name = "maramos"
version = "0.1.0"
edition = "2021"
publish = false

[dependencies]
xmas-elf = "*"
x86_64 = "*"
spin = "*"
thiserror = "*"
bitflags = "*"
limine = "*"
