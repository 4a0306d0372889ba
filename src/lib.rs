//! A bit-banged I2C master over two open-drain lines.
//!
//! The protocol engine decides every step itself; the pin layer and the timer
//! are a capability handed in by the caller, which carries out one `Action`
//! at a time and reports the level it read.
//!
//! Every line operation waits half a bit period. A clock held low by a peer
//! gets one long wait and is then taken as released. A data line found held
//! low before a start or after a stop is recovered with at most a hundred
//! bursts of ten clock pulses; the recovery ends with a plain stop condition
//! and does not recover again. A byte the peer does not acknowledge does not
//! stop a transfer. The engine keeps, as ghost state, every action the pin
//! layer carried out with the reply it gave, and every bit and condition
//! with the place in that log where it happened. Each new log entry is one
//! that the pin layer answered, and each event is borne out by the actions
//! and replies at its place; the contracts are stated over both.
pub mod wire;
pub mod bus;
pub mod laws;

pub use wire::{Action, BusEvent, Line};
pub use bus::I2cGPIO;
