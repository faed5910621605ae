[package]
name = "zkie_core"
version = "0.1.0"
edition = "2021"
publish = false

[dependencies]
ark-bn254 = "=0.6.0"
ark-ff = "=0.6.0"
blake3 = "=1.8.7"
halo2_proofs = "=0.3.5"
halo2curves = "=0.10.0"
light-poseidon = "=0.5.0"

[dev-dependencies]
halo2-axiom = "*"
rand_core = { version = "0.6", features = ["getrandom"] }
