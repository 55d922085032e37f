//! Post-link injection of a blob into a linked image.
//!
//! A symbol manifest is a post-link artifact (symbol addresses and the build id only exist
//! after the link), so it cannot be embedded at compile time. Instead, the program compiles
//! in a small zeroed descriptor in a dedicated section (`symdbh`), and this module appends
//! the manifest as a new section/segment and patches the descriptor with its address and
//! size. No relocations are created: the runtime computes `image base + rva`.

pub mod descriptor;
pub mod elf;
pub mod elf_laws;
pub mod image;
pub mod pe;
pub mod pe_growth;
pub mod pe_laws;

pub use descriptor::EmbedError;
pub use image::embed;
