[package]
name = "hld"
version = "0.1.0"
edition = "2021"
publish = false

[dependencies]
ansi_term = "*"
atty = "*"
blake3 = "*"
clap = { version = "*", features = ["derive", "env"] }
clap_complete = "*"
directories = "*"
file-id = "*"
filetime = "*"
fs2 = "*"
glob = "*"
log = "*"
pretty-bytes = "*"
rayon = "*"
reflink-copy = "*"
strum = { version = "*", features = ["derive"] }
thiserror = "*"
