//! Board support logic for a small single-core microcontroller: a first-fit
//! heap allocator over a fixed memory range, log levels and filters, the
//! header-pin to GPIO mapping, and the word packing of the QSPI controller.

pub mod heap;
pub mod log;
pub mod gpio;
pub mod qspi;
