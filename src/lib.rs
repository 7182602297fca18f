//! Reading, writing and repacking the PAK archives of a racing game, with
//! the transcoders for the audio and texture payloads they carry.

pub mod adpcm;
pub mod bytes;
pub mod dispatch;
pub mod order;
pub mod pak;
pub mod riff;
pub mod texture;
