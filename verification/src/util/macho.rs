//! Mach-O inspection, dyld fixup decoding, and strict segment insertion.
//!
//! Existing vmaddrs remain unchanged. New fixup-free segments are inserted immediately before
//! `__LINKEDIT`, which is shifted once along with every load-command file offset that points into
//! it. Unknown load commands are rejected so a newly introduced file-offset field cannot be
//! silently left stale.

pub mod chained;
pub mod chains;
pub mod fixup_laws;
pub mod fixups;
pub mod format;
pub mod image;
pub mod image_laws;
pub mod insert;
pub mod laws;
pub mod listing;
pub mod placement;
pub mod placement_laws;
pub mod relayout;
pub mod shift;
pub mod shift_laws;
pub mod signature;
pub mod unsupported;

pub use chained::grow_chained_fixups;
pub use fixups::{
    parse_bind_opcodes, parse_rebase_opcodes, read_uleb, Fixup, FixupTarget, Segment,
};
pub use format::{align_up, fixed_name, read_u16, read_u32, read_u64, MachOError};
pub use image::MachOImage;
pub use insert::{InsertResult, InsertedSegment, SectionSpec, SegmentSpec};
pub use relayout::insert_segments;
pub use signature::remove_code_signature;
