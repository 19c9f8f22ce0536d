[package]
name = "elf_reader"
version = "0.1.0"
edition = "2021"
publish = false

[dependencies]
cpp_demangle = "0.5"
gimli = "0.33"
indexmap = "2"
log = "0.4"
memmap2 = "0.9"
object = "*"
regex = "1"
