[package]
name = "wallset"
version = "0.1.0"
edition = "2021"
publish = false

[dependencies]
rand = "0.9"
serde = { version = "1", features = ["derive"] }
serde_json = "1"
directories = "6"
image = { version = "0.25", default-features = false, features = ["bmp"] }
windows = { version = "0.61", features = ["Win32_Foundation", "Win32_System_Com", "Win32_System_Threading", "Win32_UI_Shell", "Win32_Storage_FileSystem"] }
