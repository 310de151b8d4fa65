//! Byte-stuffing framing for serial links, with an 8-bit checksum trailer.
//!
//! A payload is sent as `END | escaped(payload) | escaped(checksum) | END`.
//! [`crc`] holds the checksum, [`framing`] the encoder and the decoder,
//! [`buffer`] the fixed-capacity buffer that both work on, [`error`] the
//! ways in which either can fail, and [`laws`] what is proved of every frame.
pub mod buffer;
pub mod crc;
pub mod error;
pub mod framing;
pub mod laws;
