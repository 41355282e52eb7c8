[package]
name = "search_core"
version = "0.1.0"
edition = "2021"
publish = false

[dependencies]
jieba-rs = "*"
tantivy = "*"
napi = "*"
napi-derive = "*"
