# i2c_display_driver

A driver for the SSD1309 128×64 monochrome OLED controller on an I2C bus,
written in Verus: the drawing, the framebuffer, the controller's command
stream and the display's recovery logic carry `requires`/`ensures` contracts
that Verus proves.

## Layout

- `src/display/framebuffer.rs` — the 1-bit framebuffer in GDDRAM layout, dirty
  tracking, bitmap blitting and multi-page buffers. Every drawing operation is
  specified as a sequence of pixel writes on an abstract `FrameState`.
- `src/display/ssd1309.rs` — the controller: initialisation, frame and region
  transfers, register setters. Each operation is specified by the bus
  operations it issues (`ran`, `performed`), stopping at the first failure.
- `src/display/gddram.rs` — a model of the controller's display RAM in page
  addressing mode, and the laws that a full push shows the frame and that
  pushing the dirty rectangle brings the screen up to date.
- `src/display/scroll.rs` — software scrolling and page-turn frames.
- `src/display/mod.rs` — `Display`: rendering, robust rendering with bus
  recovery and cool-down, statistics, driver events for logging, scrolling
  and page animations.
- `src/graphics/` — the 5×7 font, text, and shapes (rectangles, Bresenham
  lines with Cohen-Sutherland clipping, midpoint circles, scan-line triangles).
- `app/` — the Linux side: the `/dev/i2c-N` bus, an embedded-graphics drawing
  target, error types that implement `Display`, and a log that turns driver
  events into messages for a callback or stderr.
- `tests/` — tests against a recording mock bus.
