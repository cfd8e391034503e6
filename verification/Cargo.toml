[package]
name = "oggify_csv"
version = "0.1.0"
edition = "2021"
publish = false

[dependencies]
anyhow = "=1.0.104"
byteorder = "=1.5.0"
regex = "=1.13.1"
dateparser = "=0.2.1"
chrono = "=0.4.45"
csv = "=1.4.0"
m3u = "=1.0.0"
env_logger = "=0.11.11"
log = "=0.4.35"
tokio-core = "=0.1.18"
scoped_threadpool = "=0.1.9"
