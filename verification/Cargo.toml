[package]
name = "pitwall"
version = "0.1.0"
edition = "2021"
publish = false

[dependencies]
serialport = { version = "4", default-features = false }
termion = "1.5"
tui = { version = "0.16", default-features = false, features = ["termion"] }
