[package]
name = "pressurize"
version = "0.1.0"
edition = "2021"
publish = false

[dependencies]
anyhow = "1"
bcc = "*"
clap = "2"
ctrlc = { version = "3", features = ["termination"] }
dogstatsd = "*"
time = "*"
