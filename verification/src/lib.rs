//! The integer side of an Opus codec: packet structure, Ogg encapsulation, the
//! range coder, pulse-vector coding, the fixed-point SILK layer and the order in
//! which a decoder runs its layers, each with a verified contract.

pub mod celt;
pub mod config;
pub mod decoder;
pub mod decoder_laws;
pub mod encoder_info;
pub mod error;
pub mod ogg;
pub mod packet;
pub mod parallel;
pub mod range_coder;
pub mod range_laws;
pub mod repacketizer;
pub mod silk;
pub mod toc;
