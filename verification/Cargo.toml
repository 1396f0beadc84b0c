[package]
name = "aube"
version = "0.1.0"
edition = "2021"
publish = false

[dependencies]
glob = "0.3"
junction = "1"
pathdiff = "0.2"
thiserror = "2"
