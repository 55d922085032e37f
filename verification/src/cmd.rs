//! The commands.

pub mod def;
pub mod exports;
pub mod manifest;
pub mod modmeta;
pub mod prepatch;
pub mod selection_laws;
pub mod stub;
