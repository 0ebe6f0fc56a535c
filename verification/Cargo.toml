[package]
name = "zkas_shielded"
version = "0.1.0"
edition = "2021"
publish = false

[dependencies]
argon2 = "=0.5.3"
axum = "0.8"
axum-server = { version = "0.7", default-features = false, features = ["tls-rustls-no-provider"] }
blake2b_simd = "=1.0.5"
chacha20poly1305 = "=0.10.1"
clap = { version = "4", features = ["derive"] }
group = "=0.13.0"
hex = "=0.4.3"
incrementalmerkletree = { version = "=0.8.2", features = ["legacy-api"] }
log = "0.4"
orchard = "=0.14.0"
pasta_curves = "=0.5.2"
qrcode = { version = "0.14", default-features = false }
rand = "=0.8.8"
rayon = "1"
rcgen = "0.13"
rustls = { version = "0.23", default-features = false, features = ["ring", "std"] }
serde = { version = "1", features = ["derive"] }
serde_json = "1"
sha2 = "0.10"
tokio = { version = "1", features = ["full"] }
tower-http = { version = "0.6", features = ["cors"] }
zcash_note_encryption = "=0.4.2"
