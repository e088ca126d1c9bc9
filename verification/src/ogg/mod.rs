//! Ogg encapsulation of Opus streams (RFC 7845).
//!
//! An `.opus` file is an Ogg physical bitstream whose first packet is an
//! `OpusHead` identification header, whose second is an `OpusTags` comment
//! header, and whose remaining packets are Opus audio.
//!
//! # Granule positions and pre-skip
//!
//! Ogg Opus counts time in 48 kHz samples regardless of the encoder's sample
//! rate. A packet's duration is therefore 960 for a 20 ms frame whether the
//! encoder ran at 16 kHz or 48 kHz, and the pre-skip, the encoder delay to
//! discard from the decoder's output, is likewise at 48 kHz.
//!
//! # Scope
//!
//! One logical bitstream per file.

pub mod crc;
pub mod endian;
pub mod header;
pub mod page;
pub mod reader;
pub mod tags;
pub mod trim;
pub mod writer;
