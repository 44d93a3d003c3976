[package]
name = "patch_elf_symtab"
version = "0.1.0"
edition = "2021"
publish = false

[dependencies]
elf = "0.7"
hex = "0.4"
serde = { version = "1", features = ["derive"] }
serde_json = "1"
clap = { version = "4", features = ["derive"] }
anyhow = "1"
