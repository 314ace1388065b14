[package]
name = "keepachangelog"
version = "0.1.0"
edition = "2021"
publish = false

[dependencies]
bearask = "*"
chrono = "0.4"
clap = { version = "4", features = ["derive"] }
libc = "0.2"
miette = "7"
windows-sys = { version = "*", features = ["Win32_Foundation", "Win32_Storage_FileSystem", "Win32_System_Console", "Win32_Security"] }
