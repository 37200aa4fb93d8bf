[package]
name = "modal_editor"
version = "0.1.0"
edition = "2021"
publish = false

[dependencies]
crossterm = "0.29"
ropey = "1.6.1"
