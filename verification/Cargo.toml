[package]
name = "atu10-core"
version = "0.1.0"
edition = "2021"
publish = false

[dependencies]
hidapi = { version = "2", default-features = false, features = ["linux-native-basic-udev"] }
serialport = { version = "4", default-features = false }
