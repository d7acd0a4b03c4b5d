pub mod bitmap;
pub mod cli;
pub mod bytes;
pub mod ebml;
pub mod errors;
pub mod matcher;
pub mod mkv;
pub mod pgs;
pub mod srt;
pub mod text;
pub mod vob;
