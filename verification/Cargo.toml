[package]
name = "rover"
version = "0.1.0"
edition = "2021"
publish = false

[dependencies]
anyhow = "=1.0.104"
base64 = "=0.22.1"
serde = { version = "=1.0.229", features = ["derive"] }
serde_json = "=1.0.154"
uuid = { version = "=1.29.0", features = ["v4"] }
nmea = { version = "=0.7.0", features = ["serde"] }
tokio = { version = "=1.54.1", features = ["full"] }
axum = { version = "=0.7.9", features = ["ws"] }
axum-embed = "=0.1.0"
rust-embed = { version = "=8.13.0", features = ["interpolate-folder-path"] }
tower-http = { version = "=0.5.2", features = ["cors"] }
thiserror = "=1.0.69"
nusb = { version = "=0.2.9", features = ["tokio"] }
futures = "=0.3.34"
reqwest = { version = "=0.12.28", default-features = false, features = ["rustls-tls"] }
oxidize-pdf = { version = "=5.5.6", default-features = false, features = ["compression"] }
local-ip-address = "=0.6.13"
serialport = { version = "=4.10.1", default-features = false }
st7789 = "=0.6.1"
display-interface-spi = "=0.4.1"
embedded-graphics = "=0.7.1"
tinybmp = "=0.3.3"
linux-embedded-hal = "=0.3.2"
ratatui = { version = "*", default-features = false, features = ["crossterm"] }

[dev-dependencies]
regex = "=1.13.1"
