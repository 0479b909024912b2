[package]
name = "toccata"
version = "0.1.0"
edition = "2021"
publish = false

[dependencies]
allocator-api2 = "0.2"
libc = "0.2"
linkme = "0.3"
ctor = "0.2"
