[package]
name = "grammar_gen"
version = "0.1.0"
edition = "2021"
publish = false

[dependencies]
cfg = "0.8.0"
pest = "*"
pest_meta = "*"
pest_vm = "*"
proc-macro2 = "*"
quote = "*"
afl = "*"
