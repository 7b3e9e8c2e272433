[package]
name = "tg_rcore_tutorial"
version = "0.1.0"
edition = "2021"
publish = false

[dependencies]
xmas-elf = "=0.10.0"
virtio-drivers = "=0.1.0"
spin = "=0.12.3"
riscv = "=0.16.1"
tg-kernel-vm = "=0.4.2-preview.1"
tg-kernel-context = { version = "=0.4.2-preview.1", features = ["foreign"] }
tg-sbi = "=0.4.2-preview.1"
tg-task-manage = "=0.4.2-preview.1"
bytemuck = { version = "1", features = ["extern_crate_alloc"] }
