[package]
name = "oxc_markdown_parser"
version = "0.1.0"
edition = "2021"
publish = false

[dependencies]
entities = "*"
oxc_allocator = "=0.143.0"
unicode-properties = "=0.1.5"
