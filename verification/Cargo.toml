[package]
name = "csv2html"
version = "1.0.0"
edition = "2021"
publish = false

[dependencies]
clap = "4"
exitcode = "1"
