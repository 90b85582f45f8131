[package]
name = "elimitate"
version = "0.1.0"
edition = "2021"
publish = false

[dependencies]
dirs = "5"
jwalk = "0.8"
serde = { version = "1", features = ["derive"] }
serde_json = "1"
walkdir = "2"
windows-sys = { version = "0.59", features = ["Wdk_System_SystemServices", "Win32_Foundation", "Win32_Storage_FileSystem", "Win32_System_SystemInformation", "Win32_System_WindowsProgramming", "Win32_System_Registry", "Win32_System_Threading", "Win32_UI_Shell", "Win32_UI_WindowsAndMessaging"] }
winreg = "0.55"
