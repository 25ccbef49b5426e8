[package]
name = "rusty_neural_net"
version = "0.1.0"
edition = "2021"
publish = false

[dependencies]
anyhow = "=1.0.104"
csv = "=1.4.0"
linfa = "=0.8.1"
linfa-logistic = "=0.8.1"
ndarray = "=0.16.1"
rand = "=0.9.5"
