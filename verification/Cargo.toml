[package]
name = "launchagent"
version = "0.1.0"
edition = "2021"
publish = false

[dependencies]
libc = "*"

[dev-dependencies]
plist = "*"
