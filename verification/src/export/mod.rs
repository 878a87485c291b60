//! The rekordbox-compatible USB export: `export.pdb`, the analysis files and
//! the settings files a stick carries.
pub mod ahead;
pub mod anlz;
pub mod build;
pub mod collection;
pub mod layout;
pub mod plan;
pub mod pdb;
pub mod settings;
