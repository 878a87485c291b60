//! `export.pdb` (DeviceSQL) writer.
pub mod page;
pub mod rows;
pub mod string;
pub mod writer;
