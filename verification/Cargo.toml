[package]
name = "inferno"
version = "0.1.0"
edition = "2021"
publish = false

[dependencies]
clap = { version = "4", features = ["derive"] }
inkwell = { version = "0.6", features = ["llvm18-1"] }
libloading = "0.8"
rustix = { version = "1", features = ["mm"] }
serde = { version = "1", features = ["derive"] }
serde_json = "1"
sha2 = "0.10"
thiserror = "2"
