[package]
name = "agent"
version = "0.1.0"
edition = "2021"
publish = false

[dependencies]
k8s-cri = "*"
tokio = { version = "*", features = ["full"] }
tonic = "*"
hyper-util = { version = "*", features = ["tokio"] }
tower = { version = "*", features = ["util"] }
