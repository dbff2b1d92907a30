[package]
name = "php_literal_parser"
version = "0.1.0"
edition = "2021"
publish = false

[dependencies]
serde = "1"
source-span = "*"
thiserror = "*"
