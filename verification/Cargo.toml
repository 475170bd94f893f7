[package]
name = "seraphim"
version = "0.1.0"
edition = "2021"
publish = false

[dependencies]
byteorder = "1"
crc32c = "0.6"
regex = "1"
vec_map = "0.8"
serde = { version = "1", features = ["derive"] }
serde_json = "1"
rand = "0.6"
petgraph = "0.4"
structopt = "0.3"
clap = "2"
ctrlc = "3"
fs2 = "0.4"
log = "0.4"
flexi_logger = "*"
failure = "0.1"
fallible-iterator = "0.2"
lalrpop-util = "*"
retry = "*"
protobuf = "2"
tensorflow = "*"
