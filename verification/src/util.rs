//! File formats and machine encodings.

pub mod arm64;
pub mod coff;
pub mod embed;
pub mod file;
pub mod input_laws;
pub mod macho;
pub mod manifest;
pub mod modmeta;
pub mod msvc;
pub mod objfile;
