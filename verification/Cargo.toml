[package]
name = "async_h1"
version = "0.1.0"
edition = "2021"
publish = false

[dependencies]
httparse = "1"
url = "2"
http-types = "2"
async-std = "1"
async-channel = "1"
futures-channel = "0.3"
futures-core = "0.3"
futures-io = "0.3"
futures-lite = "1"
futures-util = "0.3"
byte-pool = "0.2"
lazy_static = "1"
log = "0.4"
pin-project = "1"
pin-project-lite = "0.2"
