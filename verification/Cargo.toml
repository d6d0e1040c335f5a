[package]
name = "audio_network"
version = "0.1.0"
edition = "2021"
publish = false

[dependencies]
cordic = "*"
fixed = "*"
crc = "*"
reed-solomon = "*"
rand = "*"
jack = "*"
crossbeam-channel = "*"
rustfft = "*"
tun = "*"
ipnet = "*"
argh = "*"
hound = "*"
once_cell = "*"
