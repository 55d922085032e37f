//! Symbol manifest format.
//!
//! Layout (little-endian):
//!
//! ```text
//! Header  { magic "SYMGEN\0\0", version u32, compression ManifestCompression,
//!           uncompressed_len u64, compressed_len u64,
//!           build_id_len u32, build_id [u8; 32], entry_count u32 } (72 bytes)
//! Payload  compressed_len bytes, optionally zstd-compressed
//! ```
//!
//! The decompressed payload contains the entries and string table:
//!
//! ```text
//! Entry   { hash u64, rva u64, name_off u32, flags u32 }   × entry_count,
//!           sorted by (hash, name_off) — binary-search by hash, resolve
//!           collisions by comparing the name.
//! Strings NUL-terminated names, referenced by name_off.
//! ```
//!
//! The build id keys the manifest to the exact binary: PDB GUID+age on Windows,
//! LC_UUID on Mach-O, GNU build-id on ELF. A stale manifest fails to load.
//! RVAs are relative to the format's image base; the loader adds the module's
//! runtime base.

pub mod embedded;
pub mod format;
pub mod laws;
pub mod layout;
pub mod payload;
pub mod permutation;
pub mod write;

pub use format::{
    fnv1a64, ManifestCompression, ManifestEntry, ManifestError, ManifestHeader, ManifestInput,
    ManifestOptions, ManifestSymbol, FLAG_CODE, FLAG_DATA, FLAG_DISPLAY, FLAG_DUP_NAME,
    FLAG_INLINE_SITES, FLAG_LOCAL, FLAG_MULTI_NAME, MAGIC, VERSION, ZSTD_LEVEL,
};

pub use embedded::{EmbeddedManifest, LookupError, ManifestLookup};
pub use payload::build_manifest_payload;
pub use write::{build_manifest, build_manifest_with_options};
