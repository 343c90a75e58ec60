//! A fixed-capacity ring buffer for Modbus RTU byte streams.
//!
//! Bytes received from a serial line are pushed one at a time; the buffer
//! finds the first CRC-validated frame among them, hands out its payload and
//! drops the bytes it consumed. Nothing is allocated: the storage is an
//! array whose length is the buffer's const parameter.
//!
//! - [`buffer`]: the buffer and its operations.
//! - [`ring`]: the buffer seen as a bounded queue, and the laws of push and pop.
//! - [`crc`]: CRC-16/MODBUS and what a frame is.
//! - [`search`]: which frame the search settles on.
pub mod buffer;
pub mod crc;
pub mod ring;
pub mod search;

pub use buffer::ModbusBuffer;
