//! What follows `__LINKEDIT` when its contents move: the offsets in the load commands, and the chained
//! fixups.

use vstd::prelude::*;
use crate::bytes::{
    group_field_len, le32, lemma_u32_at_le, lemma_u32_at_same, overlay, resized, u32_at,
};
use super::chained::{
    grown_fixups, lemma_table_tail, moved_field, moved_info, moved_table, starts_table, table_tail,
    widened,
};
use super::format::{command_at, command_size_at};
use super::insert::commands_lie;
use super::laws::{is_command, lemma_command_lies, lemma_is_command_same, lemma_shifted_commands};
use super::shift::{
    lemma_commands_lie_same, lemma_shifted_command, shifted_command, shifted_commands,
    shifted_fields, shifted_offset, OffsetShift, DYLD_INFO_FIELDS, DYSYMTAB_FIELDS,
    LINKEDIT_DATA_FIELDS, SYMTAB_FIELDS,
};

verus! {

/// Whether a load command holds a file offset at a place: of the symbols and the strings of a symbol
/// table, of the six tables of a dynamic symbol table, of the five streams of dyld information, or of
/// what lies in `__LINKEDIT`.
pub open spec fn is_offset_field(cmd: u32, field: int) -> bool {
    ||| cmd == 0x2 && (field == 8 || field == 16)
    ||| cmd == 0xb && 32 <= field <= 72 && field % 8 == 0
    ||| (cmd == 0x22 || cmd == 0x8000_0022) && 8 <= field <= 40 && field % 8 == 0
    ||| (cmd == 0x1d || cmd == 0x1e || cmd == 0x26 || cmd == 0x29 || cmd == 0x2b || cmd == 0x2e || cmd
        == 0x36 || cmd == 0x8000_0033 || cmd == 0x8000_0034) && field == 8
}

/// Whether a byte of a load command belongs to a file offset, or to the size of the chained fixups.
pub open spec fn is_shifted_byte(cmd: u32, at: int) -> bool {
    (exists|field: int| #[trigger] is_offset_field(cmd, field) && field <= at < field + 4) || cmd
        == 0x8000_0034 && 12 <= at < 16
}

/// Whether an offset has moved: not at all where there is nothing, and further by the growth of the
/// fixups where it lies behind them.
pub open spec fn has_moved(before: u32, after: u32, shift: OffsetShift) -> bool {
    &&& before == 0 ==> after == 0
    &&& before != 0 && before < shift.fixups_end ==> after == before + shift.delta
    &&& before != 0 && before >= shift.fixups_end ==> after == before + shift.delta + shift.growth
}

/// Whether the offsets of a load command have moved, and nothing else of it has changed.
pub open spec fn is_shifted(before: Seq<u8>, after: Seq<u8>, off: int, shift: OffsetShift) -> bool {
    let cmd = command_at(before, off);
    &&& forall|field: int| #[trigger]
        is_offset_field(cmd, field) ==> field + 4 <= command_size_at(before, off) && has_moved(
            u32_at(before, off + field),
            u32_at(after, off + field),
            shift,
        )
    &&& cmd == 0x8000_0034 ==> 16 <= command_size_at(before, off) && u32_at(after, off + 12) == u32_at(
        before,
        off + 12,
    ) + shift.growth
    &&& forall|i: int|
        off <= i < off + command_size_at(before, off) && !is_shifted_byte(cmd, i - off)
            ==> #[trigger] after[i] == before[i]
}

/// Whether a place is one of the fields from one of them on.
spec fn in_fields(fields: Seq<usize>, from: int, at: int) -> bool {
    exists|k: int| from <= k < fields.len() && #[trigger] fields[k] <= at < fields[k] + 4
}

proof fn lemma_fields(data: Seq<u8>, base: int, fields: Seq<usize>, from: int, shift: OffsetShift)
    requires
        0 <= base,
        0 <= from <= fields.len(),
        forall|i: int| 0 <= i < fields.len() ==> base + #[trigger] fields[i] + 4 <= data.len(),
        forall|i: int, j: int|
            0 <= i < j < fields.len() ==> #[trigger] fields[i] + 4 <= #[trigger] fields[j],
        shifted_fields(data, base, fields, from, shift) is Ok,
    ensures
        ({
            let out = shifted_fields(data, base, fields, from, shift)->Ok_0;
            &&& out.len() == data.len()
            &&& forall|k: int|
                from <= k < fields.len() ==> has_moved(
                    u32_at(data, base + #[trigger] fields[k]),
                    u32_at(out, base + fields[k]),
                    shift,
                )
            &&& forall|i: int|
                0 <= i < data.len() && !in_fields(fields, from, i - base) ==> #[trigger] out[i] == data[i]
        }),
    decreases fields.len() - from,
{
    broadcast use group_field_len;

    if from < fields.len() {
        let at = base + fields[from];
        let v = shifted_offset(u32_at(data, at), shift)->Ok_0;
        let next = overlay(data, at, le32(v));
        lemma_fields(next, base, fields, from + 1, shift);
        let out = shifted_fields(data, base, fields, from, shift)->Ok_0;
        assert(next.subrange(at, at + 4) =~= le32(v));
        lemma_u32_at_le(next, at, v);
        assert forall|i: int| at <= i < at + 4 implies #[trigger] out[i] == next[i] by {
            assert(!in_fields(fields, from + 1, i - base)) by {
                if in_fields(fields, from + 1, i - base) {
                    let k = choose|k: int|
                        from + 1 <= k < fields.len() && #[trigger] fields[k] <= i - base < fields[k] + 4;
                    assert(fields[from] + 4 <= fields[k]);
                }
            }
        }
        assert(out.subrange(at, at + 4) =~= next.subrange(at, at + 4));
        lemma_u32_at_same(out, at, next, at);
        assert forall|k: int| from <= k < fields.len() implies has_moved(
            u32_at(data, base + #[trigger] fields[k]),
            u32_at(out, base + fields[k]),
            shift,
        ) by {
            if k > from {
                let here = base + fields[k];
                assert(fields[from] + 4 <= fields[k]);
                assert(next.subrange(here, here + 4) =~= data.subrange(here, here + 4));
                lemma_u32_at_same(next, here, data, here);
            }
        }
        assert forall|i: int|
            0 <= i < data.len() && !in_fields(fields, from, i - base) implies #[trigger] out[i] == data[i] by {
            assert(!in_fields(fields, from + 1, i - base)) by {
                if in_fields(fields, from + 1, i - base) {
                    let k = choose|k: int|
                        from + 1 <= k < fields.len() && #[trigger] fields[k] <= i - base < fields[k] + 4;
                    assert(in_fields(fields, from, i - base));
                }
            }
            assert(!(fields[from] <= i - base < fields[from] + 4));
            assert(out[i] == next[i]);
        }
    }
}

/// The fields of each kind of command are those that hold offsets.
proof fn lemma_kinds(cmd: u32, fields: Seq<usize>)
    requires
        ({
            ||| cmd == 0x2 && fields == SYMTAB_FIELDS@
            ||| cmd == 0xb && fields == DYSYMTAB_FIELDS@
            ||| (cmd == 0x22 || cmd == 0x8000_0022) && fields == DYLD_INFO_FIELDS@
            ||| (cmd == 0x1d || cmd == 0x1e || cmd == 0x26 || cmd == 0x29 || cmd == 0x2b || cmd == 0x2e
                || cmd == 0x36 || cmd == 0x8000_0033 || cmd == 0x8000_0034) && fields
                == LINKEDIT_DATA_FIELDS@
        }),
    ensures
        forall|k: int| 0 <= k < fields.len() ==> is_offset_field(cmd, #[trigger] fields[k] as int),
        forall|field: int| #[trigger]
            is_offset_field(cmd, field) ==> exists|k: int|
                0 <= k < fields.len() && #[trigger] fields[k] == field,
{
    assert forall|field: int| #[trigger] is_offset_field(cmd, field) implies exists|k: int|
        0 <= k < fields.len() && #[trigger] fields[k] == field by {
        if cmd == 0x2 {
            let k = (field - 8) / 8;
            assert(fields[k] == field);
        } else if cmd == 0xb {
            let k = (field - 32) / 8;
            assert(fields[k] == field);
        } else if cmd == 0x22 || cmd == 0x8000_0022 {
            let k = (field - 8) / 8;
            assert(fields[k] == field);
        } else {
            assert(fields[0] == field);
        }
    }
}

#[verifier::spinoff_prover]
proof fn lemma_command_is_shifted(data: Seq<u8>, off: int, shift: OffsetShift)
    requires
        0 <= off,
        8 <= command_size_at(data, off),
        off + command_size_at(data, off) <= data.len(),
        shift.growth <= u32::MAX,
        shifted_command(data, off, shift) is Ok,
    ensures
        is_shifted(data, shifted_command(data, off, shift)->Ok_0, off, shift),
{
    broadcast use group_field_len;

    let cmd = command_at(data, off);
    let out = shifted_command(data, off, shift)->Ok_0;
    let fields: Seq<usize> = if cmd == 0x2 {
        SYMTAB_FIELDS@
    } else if cmd == 0xb {
        DYSYMTAB_FIELDS@
    } else if cmd == 0x22 || cmd == 0x8000_0022 {
        DYLD_INFO_FIELDS@
    } else {
        LINKEDIT_DATA_FIELDS@
    };
    if exists|field: int| is_offset_field(cmd, field) {
        lemma_kinds(cmd, fields);
        lemma_fields(data, off, fields, 0, shift);
        let moved = shifted_fields(data, off, fields, 0, shift)->Ok_0;
        if cmd == 0x8000_0034 {
            assert(!in_fields(fields, 0, 12) && !in_fields(fields, 0, 13) && !in_fields(fields, 0, 14)
                && !in_fields(fields, 0, 15));
            assert(moved[off + 12] == data[off + 12] && moved[off + 13] == data[off + 13] && moved[off
                + 14] == data[off + 14] && moved[off + 15] == data[off + 15]);
            assert(moved.subrange(off + 12, off + 16) =~= data.subrange(off + 12, off + 16));
            lemma_u32_at_same(moved, off + 12, data, off + 12);
            let size = (u32_at(moved, off + 12) + (shift.growth as u32)) as u32;
            assert(out.subrange(off + 12, off + 16) =~= le32(size));
            lemma_u32_at_le(out, off + 12, size);
            assert(out.subrange(off + 8, off + 12) =~= moved.subrange(off + 8, off + 12));
            lemma_u32_at_same(out, off + 8, moved, off + 8);
        }
        assert forall|field: int| #[trigger] is_offset_field(cmd, field) implies field + 4
            <= command_size_at(data, off) && has_moved(
            u32_at(data, off + field),
            u32_at(out, off + field),
            shift,
        ) by {
            let k = choose|k: int| 0 <= k < fields.len() && #[trigger] fields[k] == field;
            assert(has_moved(
                u32_at(data, off + fields[k]),
                u32_at(moved, off + fields[k]),
                shift,
            ));
        }
        assert forall|i: int|
            off <= i < off + command_size_at(data, off) && !is_shifted_byte(cmd, i - off) implies #[trigger] out[i]
            == data[i] by {
            assert(!in_fields(fields, 0, i - off)) by {
                if in_fields(fields, 0, i - off) {
                    let k = choose|k: int|
                        0 <= k < fields.len() && #[trigger] fields[k] <= i - off < fields[k] + 4;
                    assert(is_offset_field(cmd, fields[k] as int));
                }
            }
            assert(moved[i] == data[i]);
        }
    } else {
        assert(!is_offset_field(cmd, 8) && !is_offset_field(cmd, 32));
        assert(out == data);
    }
}

/// When the contents of `__LINKEDIT` move, the file offsets of every load command move along, and
/// nothing else of it changes but the size of grown fixups.
pub proof fn law_offsets_of_commands_move(
    data: Seq<u8>,
    cmds_end: int,
    off: int,
    n: int,
    shift: OffsetShift,
    at: int,
)
    requires
        0 <= off,
        cmds_end <= data.len(),
        commands_lie(data, cmds_end, off, n),
        is_command(data, off, n, at),
        shift.growth <= u32::MAX,
        shifted_commands(data, off, n, shift) is Ok,
    ensures
        shifted_commands(data, off, n, shift)->Ok_0.len() == data.len(),
        is_shifted(data, shifted_commands(data, off, n, shift)->Ok_0, at, shift),
    decreases n,
{
    let size = command_size_at(data, off);
    let out = shifted_commands(data, off, n, shift)->Ok_0;
    let next = shifted_command(data, off, shift)->Ok_0;
    lemma_shifted_command(data, off, shift);
    lemma_commands_lie_same(data, data, cmds_end, off, n);
    lemma_is_command_same(data, data, cmds_end, off, n, at);
    if off == at {
        lemma_command_is_shifted(data, off, shift);
        lemma_next_lies(data, next, cmds_end, off, n);
        lemma_shifted_commands(next, cmds_end, off + size, n - 1, shift);
        lemma_shifted_same(data, data, next, out, off, shift);
    } else {
        lemma_next_lies(data, next, cmds_end, off, n);
        lemma_is_command_same(data, next, cmds_end, off + size, n - 1, at);
        lemma_command_lies(data, cmds_end, off + size, n - 1, at);
        law_offsets_of_commands_move(next, cmds_end, off + size, n - 1, shift, at);
        assert(next.subrange(at, at + 4) =~= data.subrange(at, at + 4));
        assert(next.subrange(at + 4, at + 8) =~= data.subrange(at + 4, at + 8));
        lemma_u32_at_same(next, at, data, at);
        lemma_u32_at_same(next, at + 4, data, at + 4);
        lemma_shifted_same(next, data, out, out, at, shift);
    }
}

proof fn lemma_next_lies(data: Seq<u8>, next: Seq<u8>, cmds_end: int, off: int, n: int)
    requires
        0 <= off,
        0 < n,
        commands_lie(data, cmds_end, off, n),
        next.len() == data.len(),
        forall|i: int| off + command_size_at(data, off) <= i < data.len() ==> next[i] == data[i],
    ensures
        commands_lie(next, cmds_end, off + command_size_at(data, off), n - 1),
{
    lemma_commands_lie_same(data, next, cmds_end, off + command_size_at(data, off), n - 1);
}

proof fn lemma_shifted_same(
    before: Seq<u8>,
    same_before: Seq<u8>,
    after: Seq<u8>,
    same_after: Seq<u8>,
    off: int,
    shift: OffsetShift,
)
    requires
        0 <= off,
        8 <= command_size_at(before, off),
        off + command_size_at(before, off) <= before.len(),
        same_before.len() == before.len(),
        after.len() == before.len(),
        same_after.len() == before.len(),
        is_shifted(before, after, off, shift),
        forall|i: int|
            off <= i < off + command_size_at(before, off) ==> #[trigger] same_before[i] == before[i],
        forall|i: int|
            off <= i < off + command_size_at(before, off) ==> #[trigger] same_after[i] == after[i],
    ensures
        is_shifted(same_before, same_after, off, shift),
{
    let cmd = command_at(before, off);
    let size = command_size_at(before, off);
    assert(before.subrange(off, off + 4) =~= same_before.subrange(off, off + 4));
    assert(before.subrange(off + 4, off + 8) =~= same_before.subrange(off + 4, off + 8));
    lemma_u32_at_same(before, off, same_before, off);
    lemma_u32_at_same(before, off + 4, same_before, off + 4);
    assert forall|at: int| off <= at && at + 4 <= off + size implies u32_at(same_before, at)
        == u32_at(before, at) && #[trigger] u32_at(same_after, at) == u32_at(after, at) by {
        assert(before.subrange(at, at + 4) =~= same_before.subrange(at, at + 4));
        assert(after.subrange(at, at + 4) =~= same_after.subrange(at, at + 4));
        lemma_u32_at_same(before, at, same_before, at);
        lemma_u32_at_same(after, at, same_after, at);
    }
    assert forall|field: int| #[trigger] is_offset_field(cmd, field) implies field + 4 <= size
        && has_moved(u32_at(same_before, off + field), u32_at(same_after, off + field), shift) by {
        assert(u32_at(same_after, off + field) == u32_at(after, off + field));
    }
    if cmd == 0x8000_0034 {
        assert(u32_at(same_after, off + 12) == u32_at(after, off + 12));
    }
    assert forall|i: int| off <= i < off + size && !is_shifted_byte(cmd, i - off) implies #[trigger] same_after[i]
        == same_before[i] by {
        assert(after[i] == before[i]);
        assert(same_before[i] == before[i]);
    }
}

proof fn lemma_moved_table(table: Seq<u32>, from: int, old_tail: int, growth: int, j: int)
    requires
        0 <= from <= table.len(),
        0 <= growth,
        moved_table(table, from, old_tail, growth) is Ok,
        from <= j < table.len() || from == table.len(),
    ensures
        moved_table(table, from, old_tail, growth)->Ok_0.len() == 4 * (table.len() - from),
        from <= j < table.len() ==> ({
            let moved = u32_at(moved_table(table, from, old_tail, growth)->Ok_0, 4 * (j - from));
            &&& table[j] == 0 ==> moved == 0
            &&& table[j] != 0 ==> moved == table[j] + growth && table[j] >= old_tail
        }),
    decreases table.len() - from,
{
    broadcast use group_field_len;

    if from < table.len() {
        let bytes = moved_table(table, from, old_tail, growth)->Ok_0;
        let rest = moved_table(table, from + 1, old_tail, growth)->Ok_0;
        if from + 1 == table.len() || j > from {
            lemma_moved_table(table, from + 1, old_tail, growth, j);
        } else {
            lemma_moved_table(table, from + 1, old_tail, growth, from + 1);
        }
        if j == from {
            let moved = moved_info(table[from], old_tail, growth)->Ok_0;
            assert(bytes.subrange(0, 4) =~= le32(moved));
            lemma_u32_at_le(bytes, 0, moved);
        } else {
            let at = 4 * (j - from);
            assert(bytes.subrange(at, at + 4) =~= rest.subrange(at - 4, at));
            lemma_u32_at_same(bytes, at, rest, at - 4);
        }
    }
}

/// The table of grown fixups, and what stands before and behind it.
proof fn lemma_grown(blob: Seq<u8>, index: int, add: int, segments: int, j: int)
    requires
        0 <= index,
        0 <= add,
        0 <= segments,
        0 <= j < segments + add,
        grown_fixups(blob, index, add, segments) is Ok,
    ensures
        ({
            let (out, growth) = grown_fixups(blob, index, add, segments)->Ok_0;
            let starts = u32_at(blob, 4) as int;
            let entry = widened(starts_table(blob, starts, segments), index, add)[j];
            let moved = u32_at(out, starts + 4 + 4 * j);
            let behind = starts + table_tail(segments);
            &&& 28 <= starts
            &&& index <= segments
            &&& 0 <= growth == table_tail(segments + add) - table_tail(segments)
            &&& behind <= blob.len()
            &&& out.len() == blob.len() + growth
            &&& out.subrange(0, 8) == blob.subrange(0, 8)
            &&& out.subrange(16, starts) == blob.subrange(16, starts)
            &&& u32_at(out, starts) == segments + add
            &&& entry == 0 ==> moved == 0
            &&& entry != 0 ==> moved == entry + growth && entry >= table_tail(segments)
            &&& out.subrange(behind + growth, out.len() as int) == blob.subrange(
                behind,
                blob.len() as int,
            )
        }),
{
    broadcast use group_field_len;

    let (out, growth) = grown_fixups(blob, index, add, segments)->Ok_0;
    let starts = u32_at(blob, 4) as int;
    let old_tail = table_tail(segments);
    let new_tail = table_tail(segments + add);
    let entries = widened(starts_table(blob, starts, segments), index, add);
    let table = moved_table(entries, 0, old_tail, growth)->Ok_0;
    lemma_table_tail(segments, add);
    lemma_table_tail(segments + add, 0);
    assert(entries.len() == segments + add);
    lemma_moved_table(entries, 0, old_tail, growth, j);
    let count = (segments + add) as u32;
    let front = blob.subrange(0, starts) + le32(count) + table;
    let body = resized(front, starts + new_tail) + blob.subrange(
        starts + old_tail,
        blob.len() as int,
    );
    assert(body.len() == blob.len() + growth);
    assert(out.len() == body.len());
    assert forall|i: int| 0 <= i < body.len() && !(8 <= i < 16) implies #[trigger] out[i]
        == body[i] by {}
    assert(out.subrange(0, 8) =~= blob.subrange(0, 8));
    assert(out.subrange(16, starts) =~= blob.subrange(16, starts));
    assert(out.subrange(starts, starts + 4) =~= le32(count));
    lemma_u32_at_le(out, starts, count);
    let at = starts + 4 + 4 * j;
    assert(out.subrange(at, at + 4) =~= table.subrange(4 * j, 4 * j + 4));
    lemma_u32_at_same(out, at, table, 4 * j);
    let behind = starts + old_tail;
    assert(out.subrange(behind + growth, out.len() as int) =~= blob.subrange(
        behind,
        blob.len() as int,
    ));
}

/// When segments are inserted, the chained fixups of every segment that there was follow it to its new
/// number: its entry points at the same bytes as before.
pub proof fn law_fixups_follow_their_segments(
    blob: Seq<u8>,
    index: int,
    add: int,
    segments: int,
    k: int,
)
    requires
        0 <= index,
        0 <= add,
        0 <= k < segments,
        grown_fixups(blob, index, add, segments) is Ok,
    ensures
        ({
            let (out, growth) = grown_fixups(blob, index, add, segments)->Ok_0;
            let starts = u32_at(blob, 4) as int;
            let new = if k < index {
                k
            } else {
                k + add
            };
            let entry = u32_at(blob, starts + 4 + 4 * k);
            let moved = u32_at(out, starts + 4 + 4 * new);
            &&& u32_at(out, 4) == starts
            &&& u32_at(blob, starts) == segments
            &&& u32_at(out, starts) == segments + add
            &&& out.len() == blob.len() + growth
            &&& entry == 0 ==> moved == 0
            &&& entry != 0 ==> moved == entry + growth
            &&& entry != 0 && starts + entry <= blob.len() ==> out.subrange(
                starts + moved,
                out.len() as int,
            ) == blob.subrange(starts + entry, blob.len() as int)
        }),
{
    let (out, growth) = grown_fixups(blob, index, add, segments)->Ok_0;
    let starts = u32_at(blob, 4) as int;
    let new = if k < index {
        k
    } else {
        k + add
    };
    lemma_grown(blob, index, add, segments, new);
    let table = starts_table(blob, starts, segments);
    assert(widened(table, index, add)[new] == table[k]);
    assert(out.subrange(0, 8).subrange(4, 8) =~= out.subrange(4, 8));
    assert(blob.subrange(0, 8).subrange(4, 8) =~= blob.subrange(4, 8));
    lemma_u32_at_same(out, 4, blob, 4);
    let entry = u32_at(blob, starts + 4 + 4 * k);
    if entry != 0 && starts + entry <= blob.len() {
        let behind = starts + table_tail(segments);
        let d = starts + entry - behind;
        let a = out.subrange(behind + growth, out.len() as int);
        let b = blob.subrange(behind, blob.len() as int);
        assert(out.subrange(starts + entry + growth, out.len() as int) =~= a.subrange(
            d,
            a.len() as int,
        ));
        assert(blob.subrange(starts + entry, blob.len() as int) =~= b.subrange(d, b.len() as int));
    }
}

/// The inserted segments have no chained fixups.
pub proof fn law_inserted_segments_have_no_fixups(
    blob: Seq<u8>,
    index: int,
    add: int,
    segments: int,
    k: int,
)
    requires
        0 <= index <= k < index + add,
        0 <= segments,
        grown_fixups(blob, index, add, segments) is Ok,
    ensures
        ({
            let out = grown_fixups(blob, index, add, segments)->Ok_0.0;
            u32_at(out, u32_at(out, 4) + 4 + 4 * k) == 0
        }),
{
    let out = grown_fixups(blob, index, add, segments)->Ok_0.0;
    let starts = u32_at(blob, 4) as int;
    assert(k < segments + add);
    lemma_grown(blob, index, add, segments, k);
    assert(widened(starts_table(blob, starts, segments), index, add)[k] == 0);
    assert(out.subrange(0, 8).subrange(4, 8) =~= out.subrange(4, 8));
    assert(blob.subrange(0, 8).subrange(4, 8) =~= blob.subrange(4, 8));
    lemma_u32_at_same(out, 4, blob, 4);
}

/// The offsets of the imports and of the symbols move with what they point at.
pub proof fn law_fixup_tables_follow(
    blob: Seq<u8>,
    index: int,
    add: int,
    segments: int,
    field: int,
)
    requires
        0 <= index,
        0 < add,
        0 <= segments,
        field == 8 || field == 12,
        grown_fixups(blob, index, add, segments) is Ok,
    ensures
        ({
            let (out, growth) = grown_fixups(blob, index, add, segments)->Ok_0;
            let before = u32_at(blob, field) as int;
            let after = u32_at(out, field) as int;
            &&& before == 0 ==> after == 0
            &&& before != 0 ==> after == before + growth
            &&& before != 0 && before <= blob.len() ==> out.subrange(after, out.len() as int)
                == blob.subrange(before, blob.len() as int)
        }),
{
    broadcast use group_field_len;

    let (out, growth) = grown_fixups(blob, index, add, segments)->Ok_0;
    let starts = u32_at(blob, 4) as int;
    let old_tail = table_tail(segments);
    let new_tail = table_tail(segments + add);
    lemma_grown(blob, index, add, segments, 0);
    lemma_table_tail(segments, add);
    lemma_table_tail(segments + add, 0);
    let entries = widened(starts_table(blob, starts, segments), index, add);
    let table = moved_table(entries, 0, old_tail, growth)->Ok_0;
    lemma_moved_table(entries, 0, old_tail, growth, 0);
    let body = resized(
        blob.subrange(0, starts) + le32((segments + add) as u32) + table,
        starts + new_tail,
    ) + blob.subrange(starts + old_tail, blob.len() as int);
    let once = moved_field(blob, body, 8, starts + old_tail, growth)->Ok_0;
    let (v, w) = (u32_at(blob, 8), u32_at(blob, 12));
    assert(body.subrange(8, 12) =~= blob.subrange(8, 12));
    assert(body.subrange(12, 16) =~= blob.subrange(12, 16));
    lemma_u32_at_same(body, 8, blob, 8);
    lemma_u32_at_same(body, 12, blob, 12);
    if v != 0 {
        assert(once.subrange(8, 12) =~= le32((v + growth) as u32));
        lemma_u32_at_le(once, 8, (v + growth) as u32);
    }
    assert(once.subrange(12, 16) =~= body.subrange(12, 16));
    lemma_u32_at_same(once, 12, body, 12);
    if w != 0 {
        assert(out.subrange(12, 16) =~= le32((w + growth) as u32));
        lemma_u32_at_le(out, 12, (w + growth) as u32);
    }
    assert(out.subrange(8, 12) =~= once.subrange(8, 12));
    lemma_u32_at_same(out, 8, once, 8);
    let before = u32_at(blob, field) as int;
    if before != 0 && before <= blob.len() {
        let behind = starts + old_tail;
        let d = before - behind;
        let a = out.subrange(behind + growth, out.len() as int);
        let b = blob.subrange(behind, blob.len() as int);
        assert(out.subrange(before + growth, out.len() as int) =~= a.subrange(d, a.len() as int));
        assert(blob.subrange(before, blob.len() as int) =~= b.subrange(d, b.len() as int));
    }
}

} // verus!
