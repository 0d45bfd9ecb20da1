[package]
name = "anathema"
version = "0.1.0"
edition = "2021"
publish = false

[dependencies]
unicode-width = "0.1"
crossterm = "0.27"
thiserror = "1.0"
parking_lot = "0.12"
