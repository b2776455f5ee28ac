[package]
name = "backend"
version = "0.1.0"
edition = "2021"
publish = false

[dependencies]
async-openai = { version = "=0.42.1", features = ["chat-completion"] }
futures = "=0.3.34"
nvim-oxi = { version = "=0.5.1", features = ["neovim-0-10", "libuv"] }
serde = { version = "=1.0.229", features = ["derive"] }
tokio = { version = "=1.53.2", features = ["macros", "rt-multi-thread", "sync", "time"] }
