[package]
name = "blockcrypt"
version = "0.1.0"
edition = "2021"
publish = false

[dependencies]
aes-gcm = "0.10"
sha2 = "0.10"
rand = "0.8"
clap = "4"
crossbeam-channel = "0.5"
num_cpus = "1"
