[package]
name = "stm32_utils"
version = "0.1.0"
edition = "2021"
publish = false

[dependencies]
stm32f1xx-hal = { version = "0.10", features = ["stm32f103", "rt"] }
cortex-m = "0.7"
cortex-m-rt = "0.7"
