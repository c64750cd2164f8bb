[package]
name = "task_scheduler"
version = "0.1.0"
edition = "2021"
publish = false

[dependencies]
min-max-heap = "1.3"
gtk = "0.9"
gio = "0.9"
