[package]
name = "docuum"
version = "0.1.0"
edition = "2021"
publish = false
