[package]
name = "websocket_upgrade"
version = "0.1.0"
edition = "2021"
publish = false

[dependencies]
anyhow = "=1.0.104"
bytes = "=1.12.1"
deno_error = "=0.7.1"
deno_path_util = "=0.6.4"
httparse = "=1.10.1"
hyper = "=0.14.32"
memmem = "=0.1.1"
