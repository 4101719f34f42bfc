[package]
name = "flow_disasm"
version = "0.1.0"
edition = "2021"
publish = false

[dependencies]
capstone = "*"
xmas-elf = "*"
