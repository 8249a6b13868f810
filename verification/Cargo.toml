[package]
name = "moving_gc_arena"
version = "0.1.0"
edition = "2021"
publish = false
