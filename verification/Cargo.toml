[package]
name = "widecast"
version = "0.1.0"
edition = "2021"
publish = false

[dependencies]
triomphe = "=0.1.17"
thread_local = "=1.1.10"
noop-waker = "=0.1.0"
fxhash = "=0.2.1"
hdrhistogram = "=7.6.0"
humantime = "=2.4.0"
clap = { version = "=4.6.7", features = ["derive"] }
tokio = { version = "=1.54.1", features = ["rt-multi-thread", "time", "sync"] }
