[package]
name = "duvet"
version = "0.1.0"
edition = "2021"
publish = false

[dependencies]
byteorder = "1"
const-sha1 = "*"
rayon = "1"
sled = "0.34"
tempdir = "0.3"
v_htmlescape = "0.15"
v_jsonescape = "0.7"
zerocopy = "0.6"
