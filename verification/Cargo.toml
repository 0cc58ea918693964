[package]
name = "cggmp24_key_refresh"
version = "0.1.0"
edition = "2021"
publish = false

[dependencies]
digest = "=0.10.7"
displaydoc = { version = "0.2", default-features = false }
futures-util = { version = "0.3", default-features = false, features = ["sink"] }
generic-ec = { version = "=0.5.2", default-features = false, features = ["std", "curve-secp256k1", "curve-secp256r1", "curve-secp384r1", "curve-stark", "hash-to-scalar", "udigest", "serde"] }
generic-ec-zkp = { version = "=0.5.0", features = ["udigest", "serde"] }
rand_core = { version = "=0.6.4", features = ["getrandom"] }
rand_hash = "=0.1.1"
round-based = { version = "=0.4.1", features = ["derive"] }
rug = { version = "=1.30.0", default-features = false, features = ["integer", "rand"] }
serde = { version = "1", features = ["derive"] }
serde_with = { version = "2", default-features = false, features = ["macros"] }
sha2 = "=0.10.9"
thiserror = "1"
udigest = { version = "=0.2.4", features = ["derive"] }

[dev-dependencies]
rand_dev = "0.1"
