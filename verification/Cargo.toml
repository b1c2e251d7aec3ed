[package]
name = "stratis_blockdev"
version = "0.1.0"
edition = "2021"
publish = false

[dependencies]
chrono = { version = "0.4", default-features = false, features = ["std"] }
dbus = "*"
dbus-tree = "*"
devicemapper = "*"
futures = "*"
nix = "*"
time = "0.1"
uuid = { version = "1", features = ["v4"] }
