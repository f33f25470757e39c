[package]
name = "instrumentrs"
version = "0.1.0"
edition = "2021"
publish = false

[dependencies]
thiserror = "2"
termcolor = "1"
futures = "0.3"
syn = "2"
quote = "1"
proc-macro2 = "1"
