[package]
name = "icfpc"
version = "0.1.0"
edition = "2021"
publish = false

[dependencies]
rand = "0.8"
clap = "2"
glob = "0.3"
rayon = "1"
indicatif = "0.17"
