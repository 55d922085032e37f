//! Native mod metadata records.
//!
//! Libraries store an aligned record stream in `modmeta` (ELF/PE) or `__DATA,__modmeta` (Mach-O).
//! Pointer fields are runtime-only; static targets are recovered from relocations, dyld fixups, PE
//! imports, and compiler-generated materializers.
//!
//! ```text
//! Header     { record, abi_version }
//! Import     { record, versions, service_slot, service_id[64] }
//! Export     { record, versions, service,      service_id[64] }
//! HookFn     { record, target, resolved }
//! HookMem    { record, pmf[16], resolved, vtable\0, display\0 }
//! HookMemExt { record, pmf_size, materializer, resolved, vtable\0, display\0 }
//! HookName   { record, resolved, name\0 }
//! ```

pub mod agreement;
pub mod layout;
pub mod library;
pub mod library_laws;
pub mod record;
pub mod section;

pub use self::agreement::check_agreement;
pub use self::library::parse_library;
pub use self::record::{Export, HookTarget, Import};
pub use self::section::MetaFile;
