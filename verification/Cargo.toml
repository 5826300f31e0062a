[package]
name = "disk_cleaner"
version = "0.1.0"
edition = "2021"
publish = false

[dependencies]
ahash = "=0.8.12"
anyhow = "=1.0.104"
bincode = "=1.3.3"
blake3 = "=1.8.7"
chrono = "=0.4.45"
clap = { version = "=4.6.7", features = ["derive"] }
fs2 = "=0.4.3"
git2 = { version = "=0.21.0", features = ["cred"] }
i-slint-backend-winit = { version = "=1.4.1", default-features = false, features = ["renderer-software"] }
image = { version = "0.24", default-features = false, features = ["png"] }
librefs = "=0.1.0"
rayon = "=1.12.0"
serde = { version = "=1.0.229", features = ["derive"] }
serde_json = "=1.0.154"
slint = { version = "=1.4.1", default-features = false, features = ["std", "compat-1-2", "renderer-software"] }
uuid = { version = "=1.29.0", features = ["v4", "serde"] }
windows-sys = { version = "=0.61.2", features = ["Win32_Foundation", "Win32_Security", "Win32_Storage_FileSystem", "Win32_System_Com", "Win32_System_Console", "Win32_System_Environment", "Win32_System_IO", "Win32_System_Ioctl", "Win32_System_Pipes", "Win32_System_ProcessStatus", "Win32_System_Registry", "Win32_System_RestartManager", "Win32_System_Threading", "Win32_UI_Shell", "Win32_UI_WindowsAndMessaging"] }
