[package]
name = "lewton_wiki_tool"
version = "0.1.0"
edition = "2021"
publish = false

[dependencies]
chrono = { version = "0.4", features = ["serde"] }
crossbeam-channel = "0.3"
hyper = "0.12"
hyper-openssl = "0.7"
md5 = "0.6"
openssl = "0.10"
pbr = "1.0"
percent-encoding = "1.0"
serde = "1.0"
serde_derive = "1.0"
serde_json = "1.0"
structopt = "0.2"
tokio = "0.1"
