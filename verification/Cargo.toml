[package]
name = "upload_server"
version = "0.1.0"
edition = "2021"
publish = false

[dependencies]
clap = "4"
hyper = { version = "0.14", features = ["server", "http1", "tcp", "runtime"] }
routerify = "3"
tokio = { version = "1", features = ["full"] }
