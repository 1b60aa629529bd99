[package]
name = "ribbit"
version = "0.1.0"
edition = "2021"
publish = false

[dependencies]
rustsat = "=0.7.5"
rustsat-kissat = "=0.7.5"
