[package]
name = "visual_du"
version = "0.1.0"
edition = "2021"
publish = false

[dependencies]
ansi_term = "0.12"
colorous = "1"
crossbeam-channel = "0.5"
grouping_by = "*"
palette = "0.6"
tracing = "0.1"
tracing-subscriber = "0.3"
