//! The segments that the load commands of a file list.

use vstd::prelude::*;
use crate::bytes::{
    group_field_len, le32, le64, lemma_align_int, overlay, lemma_u32_at_le, lemma_u32_at_same, lemma_u64_at_le, lemma_u64_at_same, u32_at,
    u64_at,
};
use super::fixups::Segment;
use super::format::{
    command_at, command_size_at, segment_name_at, MachOError, LC_SEGMENT_64, LINKEDIT_NAME,
    MH_MAGIC_64,
};
use super::insert::{
    command_scan, commands_lie, commands_size, insert_scan, lemma_commands_size, lemma_scan_lies,
    names_fit, page_size, scan_start, segment_command_size, stored_name, InsertScan,
    InsertedSegment, SegmentModel,
};
use super::laws::{
    lemma_found_linkedit, lemma_rewritten, lemma_section_entries_len, lemma_segment_commands_len,
    lemma_shifted_commands, law_inserted_data_is_placed, linkedit_of, new_commands_end,
};
use super::placement::{lemma_placed_before, placed_before, placements_fit};
use super::relayout::{
    grown_in_image, moved_linkedit, offset_shift, rewritten_commands, section_entries,
    segment_commands, segment_entry, with_commands, with_segments,
};
use super::shift::{
    lemma_commands_lie_same, lemma_shifted_command, same_outside, shifted_command,
    shifted_commands, OffsetShift,
};

verus! {

/// Where the segment commands among the `n` commands from `off` on stand.
pub open spec fn segment_offsets(data: Seq<u8>, off: int, n: int) -> Seq<int>
    decreases n,
{
    if n <= 0 {
        Seq::empty()
    } else {
        let rest = segment_offsets(data, off + command_size_at(data, off), n - 1);
        if command_at(data, off) == LC_SEGMENT_64 {
            seq![off] + rest
        } else {
            rest
        }
    }
}

/// Whether the segment command at `off` says what a segment is.
pub open spec fn is_segment_at(data: Seq<u8>, off: int, segment: Segment) -> bool {
    &&& segment.name@ == data.subrange(off + 8, off + 24)
    &&& segment.vmaddr == u64_at(data, off + 24)
    &&& segment.vmsize == u64_at(data, off + 32)
    &&& segment.fileoff == u64_at(data, off + 40)
    &&& segment.filesize == u64_at(data, off + 48)
    &&& segment.max_prot == u32_at(data, off + 56)
    &&& segment.init_prot == u32_at(data, off + 60)
}

/// Whether a file begins with a little-endian header whose load commands lie behind it, one behind
/// the other.
pub open spec fn has_commands(data: Seq<u8>) -> bool {
    &&& 32 <= data.len()
    &&& u32_at(data, 0) == MH_MAGIC_64
    &&& 32 + u32_at(data, 20) <= data.len()
    &&& commands_lie(data, 32 + u32_at(data, 20), 32, u32_at(data, 16) as int)
}

/// Whether segments are those of the segment commands of a file, in their order, none of which is cut
/// short. Nothing is said of a file whose load commands do not lie one behind the other.
pub open spec fn lists_segments(data: Seq<u8>, segments: Seq<Segment>) -> bool {
    has_commands(data) ==> {
        let offsets = segment_offsets(data, 32, u32_at(data, 16) as int);
        &&& segments.len() == offsets.len()
        &&& forall|i: int|
            0 <= i < segments.len() ==> is_segment_at(data, offsets[i], #[trigger] segments[i])
                && command_size_at(data, offsets[i]) >= 72
    }
}

/// Where the `n`th command behind the one at `off` stands.
spec fn command_offset(data: Seq<u8>, off: int, n: int) -> int
    decreases n,
{
    if n <= 0 {
        off
    } else {
        command_offset(data, off + command_size_at(data, off), n - 1)
    }
}

/// Whether every segment command among `n` is as long as one has to be.
spec fn are_sized(data: Seq<u8>, off: int, n: int) -> bool
    decreases n,
{
    n <= 0 || {
        &&& command_at(data, off) == LC_SEGMENT_64 ==> command_size_at(data, off) >= 72
        &&& are_sized(data, off + command_size_at(data, off), n - 1)
    }
}

/// Two segments that one command describes are the same.
proof fn lemma_same_segment(data: Seq<u8>, off: int, a: Segment, b: Segment)
    requires
        is_segment_at(data, off, a),
        is_segment_at(data, off, b),
    ensures
        a == b,
{
    assert(a.name@ == b.name@);
    assert(a.name =~= b.name) by {
        assert forall|i: int| 0 <= i < 16 implies #[trigger] a.name[i] == b.name[i] by {
            assert(a.name@[i] == b.name@[i]);
        }
    }
}

/// A part of bytes that are the same is the same.
proof fn lemma_same_part(a: Seq<u8>, x: int, b: Seq<u8>, y: int, lo: int, hi: int)
    requires
        0 <= x,
        0 <= y,
        0 <= lo <= hi,
        x + hi <= a.len(),
        y + hi <= b.len(),
        forall|i: int| 0 <= i < hi ==> a[x + i] == #[trigger] b[y + i],
    ensures
        a.subrange(x + lo, x + hi) == b.subrange(y + lo, y + hi),
{
    let (p, q) = (a.subrange(x + lo, x + hi), b.subrange(y + lo, y + hi));
    assert forall|i: int| 0 <= i < hi - lo implies p[i] == q[i] by {
        assert(a[x + (lo + i)] == b[y + (lo + i)]);
    }
    assert(p =~= q);
}

/// A command with the same bytes describes the same segment.
proof fn lemma_same_description(a: Seq<u8>, x: int, b: Seq<u8>, y: int, segment: Segment)
    requires
        0 <= x,
        x + 72 <= a.len(),
        0 <= y,
        y + 72 <= b.len(),
        forall|i: int| 0 <= i < 72 ==> a[x + i] == #[trigger] b[y + i],
        is_segment_at(a, x, segment),
    ensures
        is_segment_at(b, y, segment),
{
    lemma_same_part(a, x, b, y, 8, 24);
    lemma_same_part(a, x, b, y, 24, 32);
    lemma_same_part(a, x, b, y, 32, 40);
    lemma_same_part(a, x, b, y, 40, 48);
    lemma_same_part(a, x, b, y, 48, 56);
    lemma_same_part(a, x, b, y, 56, 60);
    lemma_same_part(a, x, b, y, 60, 64);
    lemma_u64_at_same(a, x + 24, b, y + 24);
    lemma_u64_at_same(a, x + 32, b, y + 32);
    lemma_u64_at_same(a, x + 40, b, y + 40);
    lemma_u64_at_same(a, x + 48, b, y + 48);
    lemma_u32_at_same(a, x + 56, b, y + 56);
    lemma_u32_at_same(a, x + 60, b, y + 60);
}

/// A command with the same first bytes has the same number and size.
proof fn lemma_same_head(a: Seq<u8>, x: int, b: Seq<u8>, y: int)
    requires
        0 <= x,
        x + 8 <= a.len(),
        0 <= y,
        y + 8 <= b.len(),
        forall|i: int| 0 <= i < 8 ==> a[x + i] == #[trigger] b[y + i],
    ensures
        command_at(a, x) == command_at(b, y),
        command_size_at(a, x) == command_size_at(b, y),
{
    lemma_same_part(a, x, b, y, 0, 4);
    lemma_same_part(a, x, b, y, 4, 8);
    lemma_u32_at_same(a, x, b, y);
    lemma_u32_at_same(a, x + 4, b, y + 4);
}

proof fn lemma_offsets_split(data: Seq<u8>, off: int, a: int, b: int)
    requires
        0 <= a,
        0 <= b,
    ensures
        segment_offsets(data, off, a + b) == segment_offsets(data, off, a) + segment_offsets(
            data,
            command_offset(data, off, a),
            b,
        ),
    decreases a,
{
    if a > 0 {
        lemma_offsets_split(data, off + command_size_at(data, off), a - 1, b);
    }
    assert(segment_offsets(data, off, a + b) =~= segment_offsets(data, off, a) + segment_offsets(
        data,
        command_offset(data, off, a),
        b,
    ));
}

proof fn lemma_lie_split(data: Seq<u8>, cmds_end: int, off: int, a: int, b: int)
    requires
        0 <= a,
        0 <= b,
        commands_lie(data, cmds_end, off, a + b),
        off <= cmds_end,
    ensures
        ({
            let at = command_offset(data, off, a);
            &&& off <= at <= cmds_end
            &&& commands_lie(data, at, off, a)
            &&& commands_lie(data, cmds_end, at, b)
        }),
    decreases a,
{
    if a > 0 {
        lemma_lie_split(data, cmds_end, off + command_size_at(data, off), a - 1, b);
    }
}

proof fn lemma_lie_join(data: Seq<u8>, mid: int, cmds_end: int, off: int, a: int, b: int)
    requires
        0 <= a,
        0 <= b,
        mid <= cmds_end,
        commands_lie(data, mid, off, a),
        commands_lie(data, cmds_end, command_offset(data, off, a), b),
    ensures
        commands_lie(data, cmds_end, off, a + b),
    decreases a,
{
    if a > 0 {
        lemma_lie_join(data, mid, cmds_end, off + command_size_at(data, off), a - 1, b);
    }
}

proof fn lemma_sized_split(data: Seq<u8>, off: int, a: int, b: int)
    requires
        0 <= a,
        0 <= b,
        are_sized(data, off, a + b),
    ensures
        are_sized(data, off, a),
        are_sized(data, command_offset(data, off, a), b),
    decreases a,
{
    if a > 0 {
        lemma_sized_split(data, off + command_size_at(data, off), a - 1, b);
    }
}

/// The segment commands lie among the commands.
proof fn lemma_offsets_lie(data: Seq<u8>, cmds_end: int, off: int, n: int, i: int)
    requires
        commands_lie(data, cmds_end, off, n),
        are_sized(data, off, n),
        0 <= i < segment_offsets(data, off, n).len(),
    ensures
        off <= segment_offsets(data, off, n)[i],
        segment_offsets(data, off, n)[i] + 72 <= cmds_end,
    decreases n,
{
    let size = command_size_at(data, off);
    let rest = segment_offsets(data, off + size, n - 1);
    if command_at(data, off) == LC_SEGMENT_64 {
        if i > 0 {
            lemma_offsets_lie(data, cmds_end, off + size, n - 1, i - 1);
        }
    } else {
        lemma_offsets_lie(data, cmds_end, off + size, n - 1, i);
    }
}

/// Commands that stand elsewhere with the same bytes are walked over in the same way.
proof fn lemma_same_walk(a: Seq<u8>, b: Seq<u8>, cmds_end: int, off: int, n: int, d: int)
    requires
        0 <= off,
        0 <= off + d,
        off <= cmds_end <= a.len(),
        cmds_end + d <= b.len(),
        commands_lie(a, cmds_end, off, n),
        forall|i: int| off <= i < cmds_end ==> #[trigger] a[i] == b[i + d],
    ensures
        commands_lie(b, cmds_end + d, off + d, n),
        command_offset(b, off + d, n) == command_offset(a, off, n) + d,
        d == 0 ==> segment_offsets(b, off, n) == segment_offsets(a, off, n),
    decreases n,
{
    if n > 0 {
        let size = command_size_at(a, off);
        assert forall|i: int| 0 <= i < 8 implies a[off + i] == #[trigger] b[off + d + i] by {
            assert(a[off + i] == b[off + i + d]);
        }
        lemma_same_head(a, off, b, off + d);
        lemma_same_walk(a, b, cmds_end, off + size, n - 1, d);
        assert(off + d + size == off + size + d);
    }
}

/// Shifting offsets leaves the walk over the commands and the segments as they are.
proof fn lemma_shifted_walk(data: Seq<u8>, cmds_end: int, off: int, n: int, shift: OffsetShift)
    requires
        0 <= off <= cmds_end <= data.len(),
        commands_lie(data, cmds_end, off, n),
        are_sized(data, off, n),
        shifted_commands(data, off, n, shift) is Ok,
    ensures
        ({
            let out = shifted_commands(data, off, n, shift)->Ok_0;
            &&& out.len() == data.len()
            &&& commands_lie(out, cmds_end, off, n)
            &&& are_sized(out, off, n)
            &&& forall|m: int|
                0 <= m <= n ==> #[trigger] command_offset(out, off, m) == command_offset(
                    data,
                    off,
                    m,
                ) && segment_offsets(out, off, m) == segment_offsets(data, off, m)
            &&& forall|i: int, k: int|
                0 <= i < segment_offsets(data, off, n).len() && 0 <= k < 72 ==> #[trigger] out[
                segment_offsets(data, off, n)[i] + k] == data[segment_offsets(data, off, n)[i] + k]
        }),
    decreases n,
{
    if n > 0 {
        let size = command_size_at(data, off);
        let next = shifted_command(data, off, shift)->Ok_0;
        lemma_shifted_command(data, off, shift);
        let out = shifted_commands(data, off, n, shift)->Ok_0;
        assert(out == shifted_commands(next, off + size, n - 1, shift)->Ok_0);
        lemma_same_walk(data, next, cmds_end, off + size, n - 1, 0);
        lemma_sized_same(data, next, cmds_end, off + size, n - 1);
        lemma_shifted_walk(next, cmds_end, off + size, n - 1, shift);
        lemma_shifted_commands(next, cmds_end, off + size, n - 1, shift);
        assert forall|i: int| 0 <= i < 8 implies data[off + i] == #[trigger] out[off + i] by {
            assert(next[off + i] == data[off + i]);
            assert(out[off + i] == next[off + i]);
        }
        lemma_same_head(data, off, out, off);
        let offsets = segment_offsets(data, off, n);
        let rest = segment_offsets(data, off + size, n - 1);
        assert forall|m: int| 0 <= m <= n implies #[trigger] command_offset(out, off, m)
            == command_offset(data, off, m) && segment_offsets(out, off, m) == segment_offsets(
            data,
            off,
            m,
        ) by {
            if m > 0 {
                assert(command_offset(out, off + size, m - 1) == command_offset(
                    next,
                    off + size,
                    m - 1,
                ));
                lemma_same_offset(data, next, cmds_end, off + size, n - 1, m - 1);
            }
        }
        assert forall|i: int, k: int| 0 <= i < offsets.len() && 0 <= k < 72 implies #[trigger] out[
        offsets[i] + k] == data[offsets[i] + k] by {
            lemma_offsets_lie(data, cmds_end, off, n, i);
            if command_at(data, off) == LC_SEGMENT_64 {
                if i == 0 {
                    assert(out[off + k] == next[off + k]);
                } else {
                    assert(offsets[i] == rest[i - 1]);
                    lemma_offsets_lie(data, cmds_end, off + size, n - 1, i - 1);
                    assert(out[rest[i - 1] + k] == next[rest[i - 1] + k]);
                }
            } else {
                assert(offsets[i] == rest[i]);
                lemma_offsets_lie(data, cmds_end, off + size, n - 1, i);
                assert(out[rest[i] + k] == next[rest[i] + k]);
            }
        }
    }
}

proof fn lemma_sized_same(a: Seq<u8>, b: Seq<u8>, cmds_end: int, off: int, n: int)
    requires
        0 <= off <= cmds_end <= a.len(),
        cmds_end <= b.len(),
        commands_lie(a, cmds_end, off, n),
        are_sized(a, off, n),
        forall|i: int| off <= i < cmds_end ==> #[trigger] a[i] == b[i],
    ensures
        are_sized(b, off, n),
    decreases n,
{
    if n > 0 {
        lemma_same_head(a, off, b, off);
        lemma_sized_same(a, b, cmds_end, off + command_size_at(a, off), n - 1);
    }
}

proof fn lemma_same_offset(a: Seq<u8>, b: Seq<u8>, cmds_end: int, off: int, n: int, m: int)
    requires
        0 <= off <= cmds_end <= a.len(),
        cmds_end <= b.len(),
        commands_lie(a, cmds_end, off, n),
        0 <= m <= n,
        forall|i: int| off <= i < cmds_end ==> #[trigger] a[i] == b[i],
    ensures
        command_offset(b, off, m) == command_offset(a, off, m),
        segment_offsets(b, off, m) == segment_offsets(a, off, m),
    decreases m,
{
    if m > 0 {
        lemma_same_head(a, off, b, off);
        lemma_same_offset(a, b, cmds_end, off + command_size_at(a, off), n - 1, m - 1);
    }
}

/// The segments that a walk accepts are as long as they have to be, and the `__LINKEDIT` command
/// that it finds is that of the last one.
proof fn lemma_scan_splits(
    data: Seq<u8>,
    specs: Seq<SegmentModel>,
    cmds_end: int,
    off: int,
    n: int,
    found: InsertScan,
) -> (m: int)
    requires
        0 <= n,
        0 <= off <= cmds_end <= usize::MAX,
        insert_scan(data, specs, cmds_end, off, n, found) is Ok,
    ensures
        ({
            let out = insert_scan(data, specs, cmds_end, off, n, found)->Ok_0;
            &&& are_sized(data, off, n)
            &&& found.linkedit is Some ==> out.linkedit is Some
            &&& out.linkedit matches Some(l) ==> {
                ||| out.linkedit == found.linkedit && segment_offsets(data, off, n).len() == 0
                ||| {
                    &&& 0 <= m < n
                    &&& command_offset(data, off, m) == l
                    &&& command_at(data, l as int) == LC_SEGMENT_64
                    &&& segment_name_at(data, l as int) == LINKEDIT_NAME@
                    &&& segment_offsets(data, off, n) == segment_offsets(data, off, m).push(
                        l as int,
                    )
                }
            }
        }),
    decreases n,
{
    if n == 0 {
        0
    } else {
        let size = command_size_at(data, off);
        let next = command_scan(data, specs, off, found)->Ok_0;
        let m = lemma_scan_splits(data, specs, cmds_end, off + size, n - 1, next);
        let out = insert_scan(data, specs, cmds_end, off, n, found)->Ok_0;
        let rest = segment_offsets(data, off + size, n - 1);
        if out.linkedit is Some {
            let l = out.linkedit->Some_0 as int;
            if out.linkedit == next.linkedit && rest.len() == 0 {
                if command_at(data, off) == LC_SEGMENT_64 {
                    assert(segment_offsets(data, off, n) =~= Seq::<int>::empty().push(off));
                    assert(segment_offsets(data, off, 0) =~= Seq::<int>::empty());
                    0
                } else {
                    m + 1
                }
            } else {
                assert(segment_offsets(data, off, n) =~= segment_offsets(data, off, m + 1).push(l));
                m + 1
            }
        } else {
            m + 1
        }
    }
}

/// What an inserted segment is once it stands in the file.
pub open spec fn is_inserted(
    segment: Segment,
    spec: SegmentModel,
    place: InsertedSegment,
) -> bool {
    &&& segment.name@ == stored_name(spec)
    &&& segment.vmaddr == place.vmaddr
    &&& segment.vmsize == place.filesize
    &&& segment.fileoff == place.fileoff
    &&& segment.filesize == place.filesize
    &&& segment.max_prot == spec.max_prot
    &&& segment.init_prot == spec.init_prot
}

/// The command of a new segment says where the segment stands.
proof fn lemma_entry_listed(
    file: Seq<u8>,
    at: int,
    spec: SegmentModel,
    place: InsertedSegment,
)
    requires
        padded(spec),
        0 <= at,
        at + 72 <= file.len(),
        segment_command_size(spec) <= u32::MAX,
        file.subrange(at, at + 72) == segment_entry(spec, place),
    ensures
        command_at(file, at) == LC_SEGMENT_64,
        command_size_at(file, at) == segment_command_size(spec),
        forall|segment: Segment|
            is_segment_at(file, at, segment) ==> #[trigger] is_inserted(segment, spec, place),
{
    broadcast use group_field_len;

    let entry = segment_entry(spec, place);
    assert(entry.len() == 72);
    assert forall|i: int| 0 <= i < 72 implies file[at + i] == #[trigger] entry[0 + i] by {
        assert(file.subrange(at, at + 72)[i] == entry[i]);
    }
    let size = segment_command_size(spec) as u32;
    lemma_same_part(file, at, entry, 0, 0, 4);
    assert(entry.subrange(0, 4) =~= le32(LC_SEGMENT_64));
    lemma_u32_at_le(file, at, LC_SEGMENT_64);
    lemma_same_part(file, at, entry, 0, 4, 8);
    assert(entry.subrange(4, 8) =~= le32(size));
    lemma_u32_at_le(file, at + 4, size);
    lemma_same_part(file, at, entry, 0, 8, 24);
    assert(entry.subrange(8, 24) =~= stored_name(spec));
    lemma_same_part(file, at, entry, 0, 24, 32);
    assert(entry.subrange(24, 32) =~= le64(place.vmaddr));
    lemma_u64_at_le(file, at + 24, place.vmaddr);
    lemma_same_part(file, at, entry, 0, 32, 40);
    assert(entry.subrange(32, 40) =~= le64(place.filesize));
    lemma_u64_at_le(file, at + 32, place.filesize);
    lemma_same_part(file, at, entry, 0, 40, 48);
    assert(entry.subrange(40, 48) =~= le64(place.fileoff));
    lemma_u64_at_le(file, at + 40, place.fileoff);
    lemma_same_part(file, at, entry, 0, 48, 56);
    assert(entry.subrange(48, 56) =~= le64(place.filesize));
    lemma_u64_at_le(file, at + 48, place.filesize);
    lemma_same_part(file, at, entry, 0, 56, 60);
    assert(entry.subrange(56, 60) =~= le32(spec.max_prot));
    lemma_u32_at_le(file, at + 56, spec.max_prot);
    lemma_same_part(file, at, entry, 0, 60, 64);
    assert(entry.subrange(60, 64) =~= le32(spec.init_prot));
    lemma_u32_at_le(file, at + 60, spec.init_prot);
}

spec fn padded(spec: SegmentModel) -> bool {
    stored_name(spec).len() == 16
}

/// The new commands are walked over one by one.
proof fn lemma_new_walk(
    file: Seq<u8>,
    specs: Seq<SegmentModel>,
    places: Seq<InsertedSegment>,
    at: int,
    from: int,
)
    requires
        names_fit(specs),
        places.len() == specs.len(),
        0 <= from <= specs.len(),
        0 <= at,
        at + commands_size(specs, from) <= file.len(),
        segment_commands(specs, places, from) == Ok::<Seq<u8>, MachOError>(
            file.subrange(at, at + commands_size(specs, from)),
        ),
    ensures
        ({
            let k = specs.len() - from;
            let offsets = segment_offsets(file, at, k);
            &&& commands_lie(file, at + commands_size(specs, from), at, k)
            &&& command_offset(file, at, k) == at + commands_size(specs, from)
            &&& offsets.len() == k
            &&& forall|i: int, segment: Segment|
                0 <= i < k && #[trigger] is_segment_at(file, offsets[i], segment) ==> is_inserted(
                    segment,
                    specs[from + i],
                    places[from + i],
                )
        }),
    decreases specs.len() - from,
{
    broadcast use group_field_len;

    lemma_commands_size(specs, from);
    if from < specs.len() {
        let spec = specs[from];
        let size = segment_command_size(spec);
        let total = commands_size(specs, from);
        let bytes = file.subrange(at, at + total);
        lemma_commands_size(specs, from + 1);
        lemma_segment_commands_len(specs, places, from + 1);
        lemma_section_entries_len(spec.sections, 0, stored_name(spec), places[from]);
        assert(stored_name(spec).len() == 16);
        let entry = segment_entry(spec, places[from]);
        assert(entry.len() == 72);
        let sections = section_entries(spec.sections, 0, stored_name(spec), places[from])->Ok_0;
        let rest = segment_commands(specs, places, from + 1)->Ok_0;
        assert(bytes =~= entry + sections + rest);
        assert(file.subrange(at, at + 72) =~= bytes.subrange(0, 72));
        assert(bytes.subrange(0, 72) =~= entry);
        assert(sections.len() == size - 72);
        assert(bytes.subrange(size, total) =~= rest);
        assert(file.subrange(at + size, at + size + commands_size(specs, from + 1))
            =~= bytes.subrange(size, total));
        lemma_entry_listed(file, at, spec, places[from]);
        lemma_new_walk(file, specs, places, at + size, from + 1);
        let k = specs.len() - from;
        let offsets = segment_offsets(file, at, k);
        let behind = segment_offsets(file, at + size, k - 1);
        assert forall|i: int, segment: Segment|
            0 <= i < k && #[trigger] is_segment_at(file, offsets[i], segment) implies is_inserted(
            segment,
            specs[from + i],
            places[from + i],
        ) by {
            if i > 0 {
                assert(offsets[i] == behind[i - 1]);
                assert(is_segment_at(file, behind[i - 1], segment));
                assert(from + i == (from + 1) + (i - 1));
            }
        }
    }
}

/// What the new file holds where the load commands stand.
#[verifier::spinoff_prover]
#[verifier::rlimit(60)]
proof fn lemma_new_commands(data: Seq<u8>, specs: Seq<SegmentModel>)
    requires
        with_segments(data, specs) is Ok,
        0 < specs.len(),
        new_commands_end(data, specs) <= u64_at(data, linkedit_of(data, specs) + 40),
    ensures
        ({
            let (out, places) = with_segments(data, specs)->Ok_0;
            let found = super::laws::scanned(data, specs);
            let linkedit = linkedit_of(data, specs);
            let cmds_end = 32 + u32_at(data, 20);
            let ncmds = u32_at(data, 16) as int;
            let size = commands_size(specs, 0);
            let delta = placed_before(specs, page_size(data), specs.len() as int);
            let shift = offset_shift(delta, grown_in_image(data, specs, found)->Ok_0);
            let shifted = shifted_commands(data, 32, ncmds, shift)->Ok_0;
            let moved = moved_linkedit(
                shifted,
                linkedit,
                shift.delta as int,
                shift.growth as int,
            )->Ok_0;
            &&& shifted_commands(data, 32, ncmds, shift) is Ok
            &&& 0 <= size
            &&& 32 <= linkedit
            &&& linkedit + 72 <= cmds_end
            &&& cmds_end + size <= data.len()
            &&& cmds_end + size <= out.len()
            &&& places.len() == specs.len()
            &&& names_fit(specs)
            &&& shifted.len() == data.len()
            &&& moved.len() == data.len()
            &&& u32_at(out, 0) == u32_at(data, 0)
            &&& u32_at(out, 16) == ncmds + specs.len()
            &&& u32_at(out, 20) == u32_at(data, 20) + size
            &&& forall|i: int| 32 <= i < linkedit ==> #[trigger] out[i] == shifted[i]
            &&& segment_commands(specs, places, 0) == Ok::<Seq<u8>, MachOError>(
                out.subrange(linkedit, linkedit + size),
            )
            &&& forall|i: int| linkedit <= i < cmds_end ==> #[trigger] moved[i] == out[i + size]
            &&& same_outside(shifted, moved, linkedit + 24, linkedit + 56)
        }),
{
    broadcast use group_field_len;

    let (out, places) = with_segments(data, specs)->Ok_0;
    let found = super::laws::scanned(data, specs);
    let linkedit = linkedit_of(data, specs);
    let cmds_end = 32 + u32_at(data, 20);
    let ncmds = u32_at(data, 16) as int;
    let size = commands_size(specs, 0);
    let page = page_size(data);
    let delta = placed_before(specs, page, specs.len() as int);
    let shift = offset_shift(delta, grown_in_image(data, specs, found)->Ok_0);
    let shifted = shifted_commands(data, 32, ncmds, shift)->Ok_0;
    let moved = moved_linkedit(shifted, linkedit, shift.delta as int, shift.growth as int)->Ok_0;
    lemma_scan_lies(data, specs, cmds_end, 32, ncmds, scan_start());
    lemma_found_linkedit(data, specs, cmds_end, 32, ncmds, scan_start());
    lemma_commands_size(specs, 0);
    lemma_rewritten(data, specs, linkedit, shift);
    lemma_segment_commands_len(specs, places, 0);
    lemma_shifted_commands(data, cmds_end, 32, ncmds, shift);
    let rewritten = rewritten_commands(data, specs, linkedit, shift)->Ok_0;
    let commands = segment_commands(specs, places, 0)->Ok_0;
    let wide = with_commands(moved, linkedit, cmds_end, commands);
    assert(wide.len() == data.len());
    let counted = overlay(wide, 16, le32((u32_at(wide, 16) + specs.len()) as u32));
    assert(rewritten == overlay(counted, 20, le32((u32_at(wide, 20) + size) as u32)));
    assert forall|i: int| 0 <= i < 32 implies #[trigger] wide[i] == data[i] by {
        assert(shifted[i] == data[i]);
    }
    assert(wide.subrange(16, 20) =~= data.subrange(16, 20));
    assert(wide.subrange(20, 24) =~= data.subrange(20, 24));
    lemma_u32_at_same(wide, 16, data, 16);
    lemma_u32_at_same(wide, 20, data, 20);
    assert forall|i: int| 0 <= i < new_commands_end(data, specs) implies #[trigger] out[i]
        == rewritten[i] by {}
    assert(out.subrange(0, 4) =~= data.subrange(0, 4));
    lemma_u32_at_same(out, 0, data, 0);
    assert(out.subrange(16, 20) =~= le32((ncmds + specs.len()) as u32));
    lemma_u32_at_le(out, 16, (ncmds + specs.len()) as u32);
    assert(out.subrange(20, 24) =~= le32((u32_at(data, 20) + size) as u32));
    lemma_u32_at_le(out, 20, (u32_at(data, 20) + size) as u32);
    assert forall|i: int| 32 <= i < data.len() implies #[trigger] rewritten[i] == wide[i] by {}
    assert(out.subrange(linkedit, linkedit + size) =~= commands);
    assert forall|i: int| linkedit <= i < cmds_end implies #[trigger] moved[i] == out[i + size] by {
        assert(rewritten[i + size] == wide[i + size]);
    }
}

/// The segments of the new file are those of the old one in front of `__LINKEDIT`, the inserted ones
/// behind them, and `__LINKEDIT`. That holds of every file with the same load commands.
///
/// An image whose `__LINKEDIT` begins before the end of its load commands is left out: there the
/// commands themselves lie in what moves.
pub proof fn law_inserted_segments_are_listed(
    data: Seq<u8>,
    specs: Seq<SegmentModel>,
    segments: Seq<Segment>,
    file: Seq<u8>,
    listed: Seq<Segment>,
)
    requires
        with_segments(data, specs) is Ok,
        0 < specs.len(),
        new_commands_end(data, specs) <= u64_at(data, linkedit_of(data, specs) + 40),
        lists_segments(data, segments),
        new_commands_end(data, specs) <= file.len(),
        forall|i: int|
            0 <= i < new_commands_end(data, specs) ==> #[trigger] file[i] == with_segments(
                data,
                specs,
            )->Ok_0.0[i],
        lists_segments(file, listed),
    ensures
        ({
            let places = with_segments(data, specs)->Ok_0.1;
            let before = segments.len() - 1;
            &&& 0 <= before
            &&& is_segment_at(data, linkedit_of(data, specs), segments[before])
            &&& segments[before].name@ == LINKEDIT_NAME@
            &&& before + specs.len() <= listed.len()
            &&& listed.subrange(0, before) == segments.subrange(0, before)
            &&& forall|i: int|
                0 <= i < specs.len() ==> is_inserted(
                    #[trigger] listed[before + i],
                    specs[i],
                    places[i],
                )
        }),
{
    let (out, places) = with_segments(data, specs)->Ok_0;
    let found = super::laws::scanned(data, specs);
    let linkedit = linkedit_of(data, specs);
    let cmds_end = 32 + u32_at(data, 20);
    let ncmds = u32_at(data, 16) as int;
    let size = commands_size(specs, 0);
    let k = specs.len() as int;
    let delta = placed_before(specs, page_size(data), k);
    let shift = offset_shift(delta, grown_in_image(data, specs, found)->Ok_0);
    let shifted = shifted_commands(data, 32, ncmds, shift)->Ok_0;
    let moved = moved_linkedit(shifted, linkedit, shift.delta as int, shift.growth as int)->Ok_0;
    lemma_new_commands(data, specs);
    lemma_scan_lies(data, specs, cmds_end, 32, ncmds, scan_start());
    let m = lemma_scan_splits(data, specs, cmds_end, 32, ncmds, scan_start());
    lemma_shifted_walk(data, cmds_end, 32, ncmds, shift);
    assert(m + (ncmds - m) == ncmds);
    lemma_lie_split(shifted, cmds_end, 32, m, ncmds - m);
    lemma_offsets_split(shifted, 32, m, ncmds - m);
    lemma_offsets_split(data, 32, m, ncmds - m);
    lemma_sized_split(shifted, 32, m, ncmds - m);
    assert(command_offset(shifted, 32, m) == linkedit);
    // The commands in front of `__LINKEDIT`.
    lemma_same_walk(shifted, file, linkedit, 32, m, 0);
    // The new commands.
    assert(file.subrange(linkedit, linkedit + size) =~= out.subrange(linkedit, linkedit + size));
    lemma_new_walk(file, specs, places, linkedit, 0);
    // The commands from `__LINKEDIT` on.
    let all = segment_offsets(data, 32, ncmds);
    let first = segment_offsets(data, 32, m);
    let before = first.len() as int;
    assert(all[before] == linkedit);
    assert forall|i: int| 0 <= i < 8 implies data[linkedit + i] == #[trigger] shifted[linkedit
        + i] by {
        assert(shifted[all[before] + i] == data[all[before] + i]);
    }
    lemma_same_head(data, linkedit, shifted, linkedit);
    lemma_tail_lies(shifted, moved, cmds_end, linkedit, ncmds - m);
    assert forall|i: int| linkedit <= i < cmds_end implies #[trigger] moved[i] == file[i + size] by {
        assert(moved[i] == out[i + size]);
    }
    lemma_same_walk(moved, file, cmds_end, linkedit, ncmds - m, size);
    // All of them.
    lemma_lie_join(file, linkedit + size, cmds_end + size, linkedit, k, ncmds - m);
    lemma_lie_join(file, linkedit, cmds_end + size, 32, m, k + (ncmds - m));
    assert(out.subrange(0, 4) =~= file.subrange(0, 4));
    assert(out.subrange(16, 20) =~= file.subrange(16, 20));
    assert(out.subrange(20, 24) =~= file.subrange(20, 24));
    lemma_u32_at_same(out, 0, file, 0);
    lemma_u32_at_same(out, 16, file, 16);
    lemma_u32_at_same(out, 20, file, 20);
    assert(m + (k + (ncmds - m)) == ncmds + k);
    assert(has_commands(file));
    lemma_offsets_split(file, 32, m, k + (ncmds - m));
    lemma_offsets_split(file, linkedit, k, ncmds - m);
    let offsets = segment_offsets(file, 32, ncmds + k);
    let added = segment_offsets(file, linkedit, k);
    assert(has_commands(data));
    assert(segments.len() == before + 1);
    assert(segment_offsets(file, 32, m) == segment_offsets(shifted, 32, m));
    lemma_sized_split(data, 32, m, ncmds - m);
    lemma_lie_split(data, cmds_end, 32, m, ncmds - m);
    assert forall|i: int| 0 <= i < before implies #[trigger] listed[i] == segments[i] by {
        let at = first[i];
        lemma_offsets_lie(data, linkedit, 32, m, i);
        assert(all[i] == at && offsets[i] == at);
        assert(is_segment_at(file, offsets[i], listed[i]));
        assert forall|j: int| 0 <= j < 72 implies file[at + j] == #[trigger] data[at + j] by {
            assert(shifted[all[i] + j] == data[all[i] + j]);
            assert(out[at + j] == shifted[at + j]);
            assert(file[at + j] == out[at + j]);
        }
        lemma_same_description(file, at, data, at, listed[i]);
        assert(is_segment_at(data, all[i], segments[i]));
        lemma_same_segment(data, at, listed[i], segments[i]);
    }
    assert(listed.subrange(0, before) =~= segments.subrange(0, before));
    assert forall|i: int| 0 <= i < k implies is_inserted(
        #[trigger] listed[before + i],
        specs[i],
        places[i],
    ) by {
        assert(offsets[before + i] == added[i]);
        assert(is_segment_at(file, added[i], listed[before + i]));
        assert(0 + i == i);
    }
}

proof fn lemma_sized(data: Seq<u8>, off: int, n: int)
    requires
        forall|i: int|
            0 <= i < segment_offsets(data, off, n).len() ==> command_size_at(
                data,
                #[trigger] segment_offsets(data, off, n)[i],
            ) >= 72,
    ensures
        are_sized(data, off, n),
    decreases n,
{
    if n > 0 {
        let size = command_size_at(data, off);
        let all = segment_offsets(data, off, n);
        let rest = segment_offsets(data, off + size, n - 1);
        if command_at(data, off) == LC_SEGMENT_64 {
            assert(all[0] == off);
            assert forall|i: int| 0 <= i < rest.len() implies command_size_at(
                data,
                #[trigger] rest[i],
            ) >= 72 by {
                assert(all[i + 1] == rest[i]);
            }
        }
        lemma_sized(data, off + size, n - 1);
    }
}

/// A file with the same load commands lists the same segments.
pub(crate) proof fn lemma_same_listing(data: Seq<u8>, segments: Seq<Segment>, file: Seq<u8>)
    requires
        has_commands(data),
        lists_segments(data, segments),
        32 + u32_at(data, 20) <= file.len(),
        forall|i: int| 0 <= i < 32 + u32_at(data, 20) ==> #[trigger] data[i] == file[i],
    ensures
        has_commands(file),
        lists_segments(file, segments),
{
    let cmds_end = 32 + u32_at(data, 20);
    let ncmds = u32_at(data, 16) as int;
    assert(data.subrange(0, 4) =~= file.subrange(0, 4));
    assert(data.subrange(16, 20) =~= file.subrange(16, 20));
    assert(data.subrange(20, 24) =~= file.subrange(20, 24));
    lemma_u32_at_same(data, 0, file, 0);
    lemma_u32_at_same(data, 16, file, 16);
    lemma_u32_at_same(data, 20, file, 20);
    lemma_same_walk(data, file, cmds_end, 32, ncmds, 0);
    let offsets = segment_offsets(data, 32, ncmds);
    assert forall|i: int| 0 <= i < offsets.len() implies command_size_at(
        data,
        #[trigger] offsets[i],
    ) >= 72 by {
        assert(is_segment_at(data, offsets[i], segments[i]));
    }
    lemma_sized(data, 32, ncmds);
    assert forall|i: int| 0 <= i < segments.len() implies is_segment_at(
        file,
        offsets[i],
        #[trigger] segments[i],
    ) && command_size_at(file, offsets[i]) >= 72 by {
        let at = offsets[i];
        lemma_offsets_lie(data, cmds_end, 32, ncmds, i);
        assert(is_segment_at(data, at, segments[i]));
        assert forall|j: int| 0 <= j < 72 implies data[at + j] == #[trigger] file[at + j] by {}
        lemma_same_description(data, at, file, at, segments[i]);
        lemma_same_head(data, at, file, at);
    }
}

/// Files with the same load commands list the same segments.
pub proof fn law_same_commands_list_the_same_segments(
    data: Seq<u8>,
    segments: Seq<Segment>,
    file: Seq<u8>,
    listed: Seq<Segment>,
)
    requires
        has_commands(data),
        lists_segments(data, segments),
        32 + u32_at(data, 20) <= file.len(),
        forall|i: int| 0 <= i < 32 + u32_at(data, 20) ==> #[trigger] data[i] == file[i],
        lists_segments(file, listed),
    ensures
        listed == segments,
{
    lemma_same_listing(data, segments, file);
    let offsets = segment_offsets(file, 32, u32_at(file, 16) as int);
    assert forall|i: int| 0 <= i < segments.len() implies #[trigger] listed[i] == segments[i] by {
        lemma_same_segment(file, offsets[i], listed[i], segments[i]);
    }
    assert(listed =~= segments);
}

/// Where the first inserted segment stands: where `__LINKEDIT` stood.
pub(crate) proof fn lemma_first_place(data: Seq<u8>, specs: Seq<SegmentModel>)
    requires
        with_segments(data, specs) is Ok,
        2 <= specs.len(),
    ensures
        ({
            let (out, places) = with_segments(data, specs)->Ok_0;
            let linkedit = linkedit_of(data, specs);
            &&& places.len() == specs.len()
            &&& places[0].vmaddr == u64_at(data, linkedit + 24)
            &&& places[0].fileoff == u64_at(data, linkedit + 40)
            &&& specs[0].data.len() <= places[0].filesize
            &&& places[0].vmaddr + places[0].filesize <= u64::MAX
            &&& places[0].fileoff + specs[0].data.len() <= usize::MAX
        }),
{
    let (out, places) = with_segments(data, specs)->Ok_0;
    let page = page_size(data);
    let n = specs.len() as int;
    law_inserted_data_is_placed(data, specs, 0);
    lemma_align_int(specs[0].data.len() as int, page as int);
    reveal_with_fuel(placed_before, 2);
    reveal_with_fuel(placements_fit, 3);
    lemma_placed_before(specs, page, 1, n);
    assert(places[0].fileoff + placed_before(specs, page, n) <= usize::MAX);
}

/// The commands from `__LINKEDIT` on still lie one behind the other when it has moved.
proof fn lemma_tail_lies(a: Seq<u8>, b: Seq<u8>, cmds_end: int, at: int, n: int)
    requires
        0 < n,
        0 <= at,
        at + 72 <= a.len(),
        commands_lie(a, cmds_end, at, n),
        command_size_at(a, at) >= 72,
        same_outside(a, b, at + 24, at + 56),
    ensures
        commands_lie(b, cmds_end, at, n),
{
    let size = command_size_at(a, at);
    lemma_same_head(a, at, b, at);
    lemma_commands_lie_same(a, b, cmds_end, at + size, n - 1);
}

} // verus!
