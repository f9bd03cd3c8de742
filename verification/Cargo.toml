[package]
name = "picklock"
version = "0.1.0"
edition = "2021"
publish = false

[dependencies]
clap = "=4.6.7"
num-bigint = "=0.5.1"
rand = "=0.10.3"
