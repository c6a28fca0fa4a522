[package]
name = "facet-minecraft"
version = "0.1.0"
edition = "2021"
publish = false

[dependencies]
smallvec = { version = "1", features = ["const_new"] }
facet = "*"
facet-reflect = "*"
futures-lite = "2"
tokio = { version = "1", default-features = false, features = ["io-util", "rt"] }
ariadne = "*"
