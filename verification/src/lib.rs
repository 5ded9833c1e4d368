//! Driver library for the SSD1309 128×64 monochrome OLED controller on an I2C bus.
//!
//! * [`display::Framebuffer`] — 1-bit framebuffer laid out like the controller's GDDRAM,
//!   with dirty-rectangle tracking and bitmap blitting.
//! * [`display::Ssd1309`] — controller command encoding over any [`display::I2cDevice`].
//! * [`display::Display`] — top-level handle: full/partial/robust rendering, recovery,
//!   statistics, software scrolling and page animations.
//! * [`graphics`] — 5×7 text and basic shapes drawn into a framebuffer.
//! * [`DriverError`] — the crate-wide error type.
pub mod display;
pub mod error;
pub mod graphics;

pub use error::DriverError;
