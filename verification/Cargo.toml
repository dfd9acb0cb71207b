[package]
name = "line_follower"
version = "0.1.0"
edition = "2021"
publish = false

[dependencies]
cortex-m = { version = "0.7", features = ["critical-section-single-core"] }
cortex-m-rt = "0.7"
libm = "0.2"
panic-halt = "*"
stm32f1xx-hal = { version = "*", features = ["stm32f103", "rt", "medium"] }
