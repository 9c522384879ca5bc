# stm32_utils

Verified building blocks for small STM32F103 programs that drive an SSD1306
128x64 OLED over bit-banged I2C, read buttons, steer a DC motor, count
encoder and sensor pulses, and breathe an LED with PWM.

The library (`src/`) decides what to write; the firmware (`app/`) owns the
pins, timers and interrupts and carries the decisions out.

- `src/arith.rs`: exact integer powers.
- `src/i2c.rs`: the pin writes of start and stop conditions, bytes and whole
  display transfers; proofs of what a receiver on the bus observes and that
  it reads every transfer back.
- `src/text.rs`: the digit texts of numbers in base 10, 16 and 2, and that
  they read back as the number.
- `src/oled.rs`: the display driver; it queues the command and data
  transfers for initialisation, clearing and text.
- `src/panel.rs`: a model of the panel's display RAM; proofs that the
  driver's transfers blank the screen and draw each glyph in its cell.
- `src/controls.rs`: button reading, LED, buzzer, motor speed and direction,
  pulse counters and breathing-LED duty ramps.
- `app/`: the firmware: one module per demo program, the pin-owning display
  wrapper and the 8x16 font.
