[package]
name = "symgen"
version = "0.1.0"
edition = "2021"
publish = false

[dependencies]
aarchmrs-instructions = "=0.4.0-2026-06"
aarchmrs-types = "0.1"
anyhow = "1"
argp = "0.4"
cpp_demangle = "0.5"
gimli = "0.33"
iced-x86 = "1.21"
implib = "0.4"
log = "0.4"
object = "0.39"
pdb = "0.8"
rayon = "1"
serde = { version = "1", features = ["derive"] }
serde_json = "1"
yaxpeax-arch = "0.3"
yaxpeax-arm = "0.4"
zerocopy = { version = "0.8", features = ["derive"] }
zstd = "0.13"
