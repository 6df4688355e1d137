[package]
name = "minesweep_core"
version = "0.1.0"
edition = "2021"
publish = false

[dependencies]
rand = "=0.10.3"
crossterm = "=0.27.0"
prayterm = "=1.0.1"
mvc-rs = "=3.3.0"
