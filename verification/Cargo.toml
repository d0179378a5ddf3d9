[package]
name = "kalloc"
version = "0.1.0"
edition = "2021"
publish = false

[dependencies]
spin = "*"
fastrand = "*"
buddy_system_allocator = "*"
linked_list_allocator = "*"
lazy_static = "*"
