[package]
name = "gnoll_roll"
version = "0.1.0"
edition = "2021"
publish = false

[dependencies]
itertools = "=0.8.2"
rand = "=0.7.3"
serenity = { version = "=0.6.4", default-features = false, features = ["default_native_tls"] }
