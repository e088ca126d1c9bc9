//! The speech layer.

pub mod cng;
pub mod cng_laws;
pub mod core_laws;
pub mod dec_api;
pub mod decode_core;
pub mod decode_frame;
pub mod decode_indices;
pub mod decoder_structs;
pub mod define;
pub mod frame_laws;
pub mod init_decoder;
pub mod lowering_laws;
pub mod macros;
pub mod plc;
pub mod plc_laws;
pub mod resampler;
pub mod resampler_laws;
pub mod sigproc_fix;
pub mod sigproc_laws;
pub mod stereo;
pub mod stereo_laws;
pub mod structs;
pub mod synthesis;
pub mod synthesis_laws;
pub mod tables;
