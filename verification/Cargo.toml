[package]
name = "hoster"
version = "0.1.0"
edition = "2021"
publish = false

[dependencies]
smallvec = { version = "1", features = ["const_generics"] }
thiserror = "1"
clap = { version = "3.2", features = ["derive"] }
