[package]
name = "elf_diff"
version = "0.1.0"
edition = "2021"
publish = false

[dependencies]
object = "*"
rustc-demangle = "*"
cpp_demangle = "*"
goblin = "*"
comfy-table = "*"
csv = "*"
clap = { version = "4", features = ["derive"] }
eyre = "*"
tracing = "*"
tracing-subscriber = "*"
