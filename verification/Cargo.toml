[package]
name = "framegen-manager"
version = "0.1.0"
edition = "2021"
publish = false

[dependencies]
anyhow = "1"
directories = "*"
eframe = { version = "*", default-features = false, features = ["glow", "default_fonts"] }
egui = "*"
flate2 = "1"
reqwest = { version = "*", features = ["blocking"] }
rfd = "*"
serde = { version = "1", features = ["derive"] }
serde_json = "1"
sha1 = "*"
sha2 = "*"
walkdir = "2"
windows-sys = { version = "*", features = ["Win32_Foundation", "Win32_Storage_FileSystem", "Win32_UI_Shell", "Win32_UI_WindowsAndMessaging", "Win32_Graphics_Gdi", "Win32_Security_Cryptography", "Win32_Security_WinTrust"] }
winreg = "*"
