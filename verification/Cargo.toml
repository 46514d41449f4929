[package]
name = "dynars"
version = "0.1.0"
edition = "2021"
publish = false

[dependencies]
byteorder = "1.5"
memchr = "2.7"
rayon = "1.10"
glob = "0.3"
memmap2 = "0.9"
thiserror = "1.0"
wide = "0.7"
num-complex = "0.4"
iir_filters = "*"
