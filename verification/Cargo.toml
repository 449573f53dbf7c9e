[package]
name = "ipc_bench"
version = "0.1.0"
edition = "2021"
publish = false

[dependencies]
raw_sync = "0.1.5"
shared_memory = "0.12.4"
serde = { version = "1", features = ["derive"] }
serde_json = "1"
iceoryx2 = "*"
windows-sys = { version = "0.59", features = ["Win32_Foundation", "Win32_Security", "Win32_Storage_FileSystem", "Win32_System_IO", "Win32_System_JobObjects", "Win32_System_Mailslots", "Win32_System_Memory", "Win32_System_Pipes", "Win32_System_SystemInformation", "Win32_System_Threading"] }
