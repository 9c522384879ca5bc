//! Verified building blocks for small STM32F1 programs: the SSD1306 OLED
//! driver that bit-bangs I2C on two open-drain pins, the text formatting it
//! uses, and the decision rules of the button, LED, motor, encoder and PWM
//! demo programs. Everything that touches a register lives with the caller;
//! this crate computes what must be written and proves it right.

pub mod arith;
pub mod i2c;
pub mod text;
pub mod oled;
pub mod panel;
pub mod controls;
