[package]
name = "gc_gamepad"
version = "0.1.0"
edition = "2021"
publish = false

[dependencies]
uuid = "1"
serde = { version = "1", features = ["derive"] }
objc2 = "0.6"
objc2-foundation = "0.3"
objc2-game-controller = "0.3"
