[package]
name = "differential_logging"
version = "0.1.0"
edition = "2021"
publish = false

[dependencies]
timely = "0.12"
differential-dataflow = "0.12"
