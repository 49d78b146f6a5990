[package]
name = "complx_app"
version = "0.1.0"
edition = "2021"
publish = false

[dependencies]
structopt = "0.3"
rulinalg = "0.4"
derive_builder = "0.12"
thiserror = "1.0"
