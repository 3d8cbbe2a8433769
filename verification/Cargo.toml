[package]
name = "mavlink_wire"
version = "0.1.0"
edition = "2021"
publish = false

[dependencies]
xml-rs = "=0.8.29"

[dev-dependencies]
crc16 = "=0.4.0"
