[package]
name = "modbus_registers"
version = "0.1.0"
edition = "2021"
publish = false

[dependencies]
serde_json = { version = "1", features = ["preserve_order"] }
ipnetwork = { version = "*", default-features = false }
tokio-modbus = { version = "*", default-features = false, features = ["tcp-server"] }
tokio = { version = "1", features = ["rt-multi-thread", "macros", "net", "time", "sync"] }
clap = { version = "4", features = ["derive"] }
fern = "*"
log = "0.4"
chrono = { version = "0.4", default-features = false, features = ["clock"] }
