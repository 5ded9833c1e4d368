//! The driver's view of the I2C bus.
//!
//! [`I2cDevice`] captures everything the driver needs from the bus (command and
//! data writes, the status read, and a pause between commands), so that a real
//! Linux bus, a recording mock or any other backend can be plugged in.
use vstd::prelude::*;

verus! {

/// What the driver needs from an I2C device.
///
/// Implementors provide the two write channels of the controller: commands
/// (control byte 0x00) and GDDRAM data (control byte 0x40), the status read
/// and a pause.
pub trait I2cDevice {
    /// Sends command bytes (prefixed with control byte 0x00).
    fn write_command(&mut self, bytes: &[u8]) -> Result<(), std::io::Error>;

    /// Sends GDDRAM data bytes (prefixed with control byte 0x40).
    fn write_data(&mut self, bytes: &[u8]) -> Result<(), std::io::Error>;

    /// Reads the controller's status byte (bit 7 = busy, bit 0 = charge pump on).
    fn read(&mut self) -> Result<u8, std::io::Error>;

    /// Pauses for `ms` milliseconds between two commands (the controller needs
    /// time after its DC-DC converter is switched on).
    fn delay_ms(&mut self, ms: u64);
}

/// Opens a device by bus number and slave address.
///
/// [`Display`](crate::display::Display) uses it to rebuild the device when it
/// recovers the bus.
pub trait I2cDeviceFactory: Sized {
    /// Opens the device at `addr` on bus `bus_id`.
    fn open(bus_id: u8, addr: u8) -> Result<Self, std::io::Error>;
}

} // verus!
