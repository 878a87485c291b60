//! Analysis files (`ANLZ0000.DAT/.EXT/.2EX`).
pub mod section;
pub mod hash;
pub mod pssi;
pub mod rewrite;
pub mod cues;
pub mod locate;
pub mod generate;
