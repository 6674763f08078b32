[package]
name = "activity_notifier"
version = "0.1.0"
edition = "2021"
publish = false

[dependencies]
chrono = "=0.4.45"
serde_json = "=1.0.151"
sysinfo = "=0.30.13"
teloxide = "=0.12.2"
tokio = "1"
futures = "0.3"
rust-ini = "=0.21.3"
# Not called anywhere directly: pinned so the transport stack's transitive
# takecell stays at a patch release that this toolchain's rustc accepts.
takecell = "=0.1.1"
