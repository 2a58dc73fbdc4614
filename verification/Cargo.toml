[package]
name = "zipper_join"
version = "0.1.0"
edition = "2021"
publish = false

[dependencies]
pathmap = { version = "=0.3.5", default-features = false, features = ["graft_root_vals", "slim_ptrs"] }
