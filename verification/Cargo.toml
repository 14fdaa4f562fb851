[package]
name = "schedbot"
version = "0.1.0"
edition = "2021"
publish = false

[dependencies]
chrono = "0.4"
dotenv = "*"
simple_redis = "*"
