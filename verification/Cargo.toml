[package]
name = "mamediff"
version = "0.1.0"
edition = "2021"
publish = false

[dependencies]
unicode-width = "=0.2.3"
crossterm = "=0.29.0"
nojson = "=0.3.15"
noargs = "=0.4.3"
orfail = "=2.0.0"
mame = "=0.3.0"
tuinix = "=0.3.2"
