[package]
name = "efilite"
version = "0.1.0"
edition = "2021"
publish = false

[dependencies]
aarch64-paging = "0.5.0"
byte-slice-cast = { version = "*", default-features = false }
const-utf16 = "*"
fdt = "*"
linked_list_allocator = "*"
log = "*"
mmio = "*"
once_cell = { version = "*", default-features = false }
spinning_top = "*"
