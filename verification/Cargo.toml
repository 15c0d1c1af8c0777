[package]
name = "loader-entries"
version = "0.1.0"
edition = "2021"
publish = false

[dependencies]
anyhow = "=1.0.104"
cap-std-ext = { version = "=5.1.2", features = ["fs_utf8"] }
fn-error-context = "=0.2.1"
linux-kernel-cmdline = "=0.1.1"
rustix = { version = "=1.1.6", features = ["fs"] }
serde = { version = "=1.0.229", features = ["derive"] }
serde_json = "=1.0.154"
tracing = "=0.1.44"
