[package]
name = "buf_read_split_by"
version = "0.1.0"
edition = "2021"
publish = false
