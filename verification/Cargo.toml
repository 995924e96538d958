[package]
name = "vemigrate"
version = "0.1.0"
edition = "2021"
publish = false

[dependencies]
cdrs = "2"
cdrs_helpers_derive = "*"
structopt = "0.3"
clap = "2"
log = "0.4"
