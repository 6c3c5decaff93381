[package]
name = "net_test3"
version = "0.1.0"
edition = "2021"
publish = false

[dependencies]
url = "2"
slab = "0.4"
mio = "0.6"
futures = "0.3"
log = "0.4"
env_logger = "0.11"
lazy_static = "1"
