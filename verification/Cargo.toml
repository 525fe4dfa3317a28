[package]
name = "minikernel"
version = "0.1.0"
edition = "2021"
publish = false

[dependencies]
limine = "*"
linked_list_allocator = "*"
log = "*"
polished_serial_logging = "*"
spin = "*"
x86_64 = "*"
