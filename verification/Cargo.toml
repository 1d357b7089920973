[package]
name = "lb"
version = "0.1.0"
edition = "2021"
publish = false

[dependencies]
anyhow = "1"
arc-swap = "1"
bytes = "1"
clap = { version = "4", features = ["derive"] }
crossbeam-utils = "0.8"
futures-util = "0.3"
hdrhistogram = { version = "7", features = ["sync"] }
http = "1"
http-body-util = "0.1"
httparse = "1"
hyper = { version = "1", features = ["full"] }
hyper-util = { version = "0.1", features = ["full"] }
io-uring = "0.7"
k8s-openapi = { version = "0.25", features = ["latest"] }
kube = { version = "1", features = ["client", "runtime", "rustls-tls"] }
libc = "0.2"
matchit = "0.8"
memchr = "2"
mimalloc = { version = "0.1", default-features = false }
monoio = { version = "0.2", features = ["poll-io", "sync"] }
num_cpus = "1"
serde = { version = "1", features = ["derive"] }
serde_json = "1"
serde_yaml = "0.9"
simdutf8 = "0.1"
socket2 = { version = "0.5", features = ["all"] }
sysinfo = "0.33"
tokio = { version = "1", features = ["full"] }
tracing = "0.1"
tracing-subscriber = { version = "0.3", features = ["env-filter"] }
