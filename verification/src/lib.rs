//! Symbol pipeline for moddable game binaries: curated exports, link stubs, symbol manifests,
//! embedded blobs, mod metadata and package-time hook gateways.

pub mod bytes;
pub mod cmd;
pub mod order;
pub mod text;
pub mod text_laws;
pub mod util;

pub use util::modmeta::{check_agreement, parse_library, Export, HookTarget, Import, MetaFile};
