[package]
name = "mdb_converter"
version = "0.1.0"
edition = "2021"
publish = false

[dependencies]
anyhow = "1"
clap = "4"
color-eyre = "0.6"
colored = "2"
crossterm = "=0.27.0"
log = "0.4"
ratatui = "=0.27.0"
tui-logger = "=0.11.2"
