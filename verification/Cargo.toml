[package]
name = "zkmemory"
version = "0.1.0"
edition = "2021"
publish = false

[dependencies]
bellpepper-core = "=0.4.0"
ff = "=0.13.1"
nova-snark = "<0.38"
pasta_curves = "0.5"
