[package]
name = "everyfile"
version = "0.1.0"
edition = "2021"
publish = false

[dependencies]
crossbeam-channel = "0.5"
libc = "0.2"
memmap2 = "0.9"
objc2 = "0.6"
objc2-app-kit = "0.3"
objc2-foundation = "0.3"
rusqlite = { version = "0.32", features = ["bundled"] }
unicode-casefold = "0.2"
unicode-normalization = "0.1"
