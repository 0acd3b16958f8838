[package]
name = "rust_os"
version = "0.1.0"
edition = "2021"
publish = false

[dependencies]
pc-keyboard = "=0.9.0"
linked_list_allocator = "=0.10.6"
x86_64 = "=0.15.5"
pic8259 = "=0.11.0"
bootloader = "=0.9.35"
spin = "=0.12.3"
lazy_static = "=1.5.1"
volatile = "=0.2.7"
