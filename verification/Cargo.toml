[package]
name = "hyperscale"
version = "0.1.0"
edition = "2021"
publish = false

[dependencies]
blake3 = "=1.8.7"
blst = "=0.3.17"
rand = "=0.10.3"
wasmparser = "=0.252.0"
sbor = "=1.3.1"
radix-common = "=1.3.1"
radix-substate-store-interface = "=1.3.1"
tracing = "0.1"
wasmtime = { version = "=45.0.3", default-features = false, features = ["component-model", "runtime", "std"] }

[dev-dependencies]
wat = "=1.252.0"
