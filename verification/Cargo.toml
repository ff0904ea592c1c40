[package]
name = "cachalot"
version = "0.1.0"
edition = "2021"
publish = false

[dependencies]
ahash = "0.8"
async-stream = "0.3"
async-trait = "0.1"
bool_ext = "*"
byte-unit = "4"
bytemuck = "1"
darling = "0.20"
derive_more = "0.99"
futures = "0.3"
num = "0.4"
proc-macro-error = "1"
proc-macro2 = "1"
quote = "1"
syn = { version = "2", features = ["full"] }
thiserror = "1"
tokio = { version = "1", features = ["fs", "rt", "macros"] }
