[package]
name = "microvm_irq"
version = "0.1.0"
edition = "2021"
publish = false

[dependencies]
byteorder = "*"
kvm-bindings = "*"
kvm-ioctls = "*"
libc = "*"
vmm-sys-util = "*"
