[package]
name = "search_criteria"
version = "0.1.0"
edition = "2021"
publish = false

[dependencies]
compact_arena = "0.4"
sdset = "0.3"
slice-group-by = "0.2"
