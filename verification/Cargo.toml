[package]
name = "rmr"
version = "0.1.0"
edition = "2021"
publish = false

[dependencies]
crossterm = "0.29.0"
linefeed = "0.6.0"
rayon = "1.12.0"
