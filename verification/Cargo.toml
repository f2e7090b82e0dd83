[package]
name = "disktree"
version = "0.1.0"
edition = "2021"
publish = false

[dependencies]
chrono = "0.4"
rustc-hash = "2"
rustix = { version = "1", features = ["fs"] }
trash = "5"
winapi-util = "0.1"
windows-sys = { version = "0.61", features = ["Win32_Foundation", "Win32_Storage_FileSystem"] }
