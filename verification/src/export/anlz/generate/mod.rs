//! Building blocks for analysis files generated from audio and the XML track.
pub mod assemble;
pub mod grid;
pub mod waveform;
