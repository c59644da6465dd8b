[package]
name = "autoruby"
version = "0.5.0"
edition = "2021"
publish = false

[dependencies]
wana_kana = "=5.0.0"
lindera-tokenizer = "=0.32.3"
lindera-dictionary = "=0.32.3"
lindera-core = "=0.32.3"
lindera = "=0.32.3"
jmdict = { version = "=2.0.0", features = ["db-empty"] }
rusqlite = "=0.41.0"
clap = { version = "=4.6.7", features = ["derive"] }
tokio = { version = "=1.54.1", features = ["rt", "macros"] }
serde = { version = "=1.0.229", features = ["derive"] }
bincode = "=1.3.3"
once_cell = "=1.21.4"
thiserror = "=1.0.69"

[dev-dependencies]
yada = "=0.5.1"
