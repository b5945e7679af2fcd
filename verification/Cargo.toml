[package]
name = "rip"
version = "0.1.0"
edition = "2021"
publish = false

[dependencies]
anstream = "*"
chrono = "*"
clap = { version = "*", features = ["derive"] }
clap_complete_command = "*"
colored = "*"
eyre = "*"
globwalk = "*"
tabwriter = "*"
walkdir = "*"
