[package]
name = "sparse_merkle"
version = "0.1.0"
edition = "2021"
publish = false

[dependencies]
bitvec = "1"
color-eyre = "0.6"
halo2_gadgets = "*"
halo2_proofs = "*"
rand_chacha = "0.3"
