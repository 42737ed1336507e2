[package]
name = "emcp_tools"
version = "0.1.0"
edition = "2021"
publish = false

[dependencies]
anyhow = "1"
clap = { version = "4", features = ["derive"] }
clio = { version = "0.3", features = ["clap-parse"] }
parse_duration = "2"

[dev-dependencies]
assert_fs = "1"
filetime = "0.2"
predicates = "3"
