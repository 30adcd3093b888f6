[package]
name = "hash_sig_agg"
version = "0.1.0"
edition = "2021"
publish = false
