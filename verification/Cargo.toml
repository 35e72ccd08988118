[package]
name = "hat"
version = "0.1.0"
edition = "2021"
publish = false

[dependencies]
sodiumoxide = "0.2"
time = "0.1"
scoped_threadpool = "0.1"
diesel = { version = "2", features = ["sqlite"] }
