[package]
name = "ipchk"
version = "0.1.0"
edition = "2021"
publish = false

[dependencies]
pico-args = "0.5"
windows-sys = { version = "0.59", features = ["Win32_Foundation", "Win32_NetworkManagement_IpHelper"] }
