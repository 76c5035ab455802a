[package]
name = "os_rs"
version = "0.1.0"
edition = "2021"
publish = false

[dependencies]
x86_64 = { version = "0.14", default-features = false, features = ["instructions"] }
bootloader = { version = "0.9", features = ["map_physical_memory"] }
crossbeam-queue = "0.2"
futures-util = { version = "0.3", default-features = false, features = ["alloc"] }
conquer-once = { version = "0.2", default-features = false }
spin = "0.5"
pc-keyboard = "0.5"
pic8259 = "0.10"
volatile = "0.2"
lazy_static = "1"
