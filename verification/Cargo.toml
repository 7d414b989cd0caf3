[package]
name = "extrinsic-shuffler"
version = "0.1.0"
edition = "2021"
publish = false

[dependencies]
derive_more = "0.99"
log = "0.4"
sp-api = "44"
sp-block-builder = "44"
sp-runtime = "49"
