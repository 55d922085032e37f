//! Chained fixups that are not understood.

use vstd::prelude::*;
use crate::bytes::{get_u16, get_u32, u16_at, u32_at};

verus! {

/// What of the chained fixups of an image is passed over.
#[derive(Clone, Copy, Debug, PartialEq, Eq, Structural)]
pub enum Unsupported {
    /// The imports have a format by which no names are found.
    Imports(u32),
    /// The pointers of a segment have a format that is not understood.
    Pointers(u16),
}

/// The pointer format of the segment `index`, where it has chains that are passed over.
pub open spec fn passed_over(blob: Seq<u8>, index: int) -> Option<u16> {
    let starts = u32_at(blob, 4);
    let field = starts + 4 + 4 * index;
    let info = starts + u32_at(blob, field);
    if field + 4 > blob.len() || u32_at(blob, field) == 0 || info + 4 > blob.len() || u32_at(
        blob,
        info,
    ) < 22 || info + u32_at(blob, info) > blob.len() {
        None
    } else {
        let format = u16_at(blob, info + 6);
        if format == 2 || format == 6 {
            None
        } else {
            Some(format)
        }
    }
}

/// What is passed over in the first `n` segments.
pub open spec fn passed_segments(blob: Seq<u8>, n: int) -> Seq<Unsupported>
    decreases n,
{
    if n <= 0 {
        Seq::empty()
    } else {
        match passed_over(blob, n - 1) {
            Some(format) => passed_segments(blob, n - 1).push(Unsupported::Pointers(format)),
            None => passed_segments(blob, n - 1),
        }
    }
}

/// What is passed over in the chained fixups of an image with `segments` segments: names of imports
/// of another format, then pointers of other formats, in the order of the segments.
pub open spec fn unsupported_in(blob: Seq<u8>, segments: int) -> Seq<Unsupported> {
    if blob.len() < 24 || u32_at(blob, 0) != 0 {
        Seq::empty()
    } else if u32_at(blob, 16) != 0 && u32_at(blob, 20) != 1 {
        seq![Unsupported::Imports(u32_at(blob, 20))] + passed_segments(blob, segments)
    } else {
        passed_segments(blob, segments)
    }
}

fn find_passed(blob: &[u8], index: usize) -> (r: Option<u16>)
    requires
        24 <= blob@.len(),
    ensures
        r == passed_over(blob@, index as int),
{
    let len: u64 = blob.len() as u64;
    let starts: u64 = get_u32(blob, 4) as u64;
    if index as u64 >= len {
        return None;
    }
    let field: u128 = starts as u128 + 4 + 4 * (index as u128);
    if field + 4 > len as u128 {
        return None;
    }
    let relative: u32 = get_u32(blob, field as usize);
    let info: u64 = starts + relative as u64;
    if relative == 0 || info + 4 > len {
        return None;
    }
    let size: u32 = get_u32(blob, info as usize);
    if size < 22 || info + size as u64 > len {
        return None;
    }
    let format: u16 = get_u16(blob, info as usize + 6);
    if format == 2 || format == 6 {
        None
    } else {
        Some(format)
    }
}

/// Find what is passed over in the chained fixups of an image.
pub fn find_unsupported(blob: &[u8], segments: usize) -> (r: Vec<Unsupported>)
    ensures
        r@ == unsupported_in(blob@, segments as int),
{
    let mut r: Vec<Unsupported> = Vec::new();
    if blob.len() < 24 || get_u32(blob, 0) != 0 {
        return r;
    }
    if get_u32(blob, 16) != 0 && get_u32(blob, 20) != 1 {
        r.push(Unsupported::Imports(get_u32(blob, 20)));
    }
    let ghost first = r@;
    let mut i: usize = 0;
    assert(r@ =~= first + passed_segments(blob@, 0));
    while i < segments
        invariant
            i <= segments,
            24 <= blob@.len(),
            r@ == first + passed_segments(blob@, i as int),
        decreases segments - i,
    {
        match find_passed(blob, i) {
            Some(format) => {
                let ghost before = r@;
                r.push(Unsupported::Pointers(format));
                assert(r@ =~= first + passed_segments(blob@, i + 1));
            },
            None => {},
        }
        i = i + 1;
    }
    assert(r@ =~= unsupported_in(blob@, segments as int));
    r
}

} // verus!
