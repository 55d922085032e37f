//! Shifting the file offsets that point into `__LINKEDIT`.

use vstd::prelude::*;
use crate::bytes::{
    get_u32, group_field_len, le32, lemma_u32_at_same, overlay, put_u32, u32_at,
};
use super::format::{
    command_at, command_size_at, MachOError, LC_ATOM_INFO, LC_CODE_SIGNATURE, LC_DATA_IN_CODE,
    LC_DYLD_CHAINED_FIXUPS, LC_DYLD_EXPORTS_TRIE, LC_DYLD_INFO, LC_DYLD_INFO_ONLY,
    LC_DYLIB_CODE_SIGN_DRS, LC_DYSYMTAB, LC_FUNCTION_STARTS, LC_LINKER_OPTIMIZATION_HINT,
    LC_SEGMENT_64, LC_SEGMENT_SPLIT_INFO, LC_SYMTAB,
};
use super::insert::commands_lie;

verus! {

/// How far offsets into `__LINKEDIT` move: all by `delta`, those from `fixups_end` on also by
/// `growth`.
#[derive(Clone, Copy, Debug, PartialEq, Eq, Structural)]
pub struct OffsetShift {
    pub delta: u64,
    pub fixups_end: u64,
    pub growth: u64,
}

/// A file offset after the shift. Zero stands for no data and stays.
pub open spec fn shifted_offset(value: u32, shift: OffsetShift) -> Result<u32, MachOError> {
    let growth = if value >= shift.fixups_end {
        shift.growth as int
    } else {
        0
    };
    if value == 0 {
        Ok(0)
    } else if value + shift.delta + growth > u64::MAX {
        Err(MachOError::FileOffsetOverflow)
    } else if value + shift.delta + growth > u32::MAX {
        Err(MachOError::FileOffsetTooLarge)
    } else {
        Ok((value + shift.delta + growth) as u32)
    }
}

/// Positions of the file offsets in an `LC_SYMTAB` command.
pub const SYMTAB_FIELDS: [usize; 2] = [8, 16];

/// Positions of the file offsets in an `LC_DYSYMTAB` command.
pub const DYSYMTAB_FIELDS: [usize; 6] = [32, 40, 48, 56, 64, 72];

/// Positions of the file offsets in an `LC_DYLD_INFO` command.
pub const DYLD_INFO_FIELDS: [usize; 5] = [8, 16, 24, 32, 40];

/// Position of the file offset in a command that locates data in `__LINKEDIT`.
pub const LINKEDIT_DATA_FIELDS: [usize; 1] = [8];

/// Commands that hold a file offset and a size and nothing else.
pub open spec fn is_linkedit_data(cmd: u32) -> bool {
    ||| cmd == LC_CODE_SIGNATURE
    ||| cmd == LC_SEGMENT_SPLIT_INFO
    ||| cmd == LC_FUNCTION_STARTS
    ||| cmd == LC_DATA_IN_CODE
    ||| cmd == LC_DYLIB_CODE_SIGN_DRS
    ||| cmd == LC_LINKER_OPTIMIZATION_HINT
    ||| cmd == LC_DYLD_EXPORTS_TRIE
    ||| cmd == LC_DYLD_CHAINED_FIXUPS
    ||| cmd == LC_ATOM_INFO
}

/// The bytes with the offsets at `base + fields[from..]` shifted.
pub open spec fn shifted_fields(
    data: Seq<u8>,
    base: int,
    fields: Seq<usize>,
    from: int,
    shift: OffsetShift,
) -> Result<Seq<u8>, MachOError>
    decreases fields.len() - from,
{
    if from >= fields.len() {
        Ok(data)
    } else {
        let at = base + fields[from];
        match shifted_offset(u32_at(data, at), shift) {
            Err(e) => Err(e),
            Ok(v) => shifted_fields(overlay(data, at, le32(v)), base, fields, from + 1, shift),
        }
    }
}

/// The bytes with the offsets of the command at `off` shifted. A chained-fixups command also grows
/// by the bytes that the fixups grow by.
pub open spec fn shifted_command(data: Seq<u8>, off: int, shift: OffsetShift) -> Result<
    Seq<u8>,
    MachOError,
> {
    let cmd = command_at(data, off);
    let size = command_size_at(data, off);
    if cmd == LC_SYMTAB {
        if size < 24 {
            Err(MachOError::TruncatedSymtab)
        } else {
            shifted_fields(data, off, SYMTAB_FIELDS@, 0, shift)
        }
    } else if cmd == LC_DYSYMTAB {
        if size < 80 {
            Err(MachOError::TruncatedDysymtab)
        } else {
            shifted_fields(data, off, DYSYMTAB_FIELDS@, 0, shift)
        }
    } else if cmd == LC_DYLD_INFO || cmd == LC_DYLD_INFO_ONLY {
        if size < 48 {
            Err(MachOError::TruncatedDyldInfo)
        } else {
            shifted_fields(data, off, DYLD_INFO_FIELDS@, 0, shift)
        }
    } else if is_linkedit_data(cmd) {
        if size < 16 {
            Err(MachOError::TruncatedLinkeditData)
        } else {
            match shifted_fields(data, off, LINKEDIT_DATA_FIELDS@, 0, shift) {
                Err(e) => Err(e),
                Ok(moved) => if cmd != LC_DYLD_CHAINED_FIXUPS {
                    Ok(moved)
                } else if u32_at(moved, off + 12) + (shift.growth as u32) > u32::MAX {
                    Err(MachOError::FixupsSizeOverflow)
                } else {
                    Ok(
                        overlay(
                            moved,
                            off + 12,
                            le32((u32_at(moved, off + 12) + (shift.growth as u32)) as u32),
                        ),
                    )
                },
            }
        }
    } else {
        Ok(data)
    }
}

/// The bytes with the offsets of the `n` commands from `off` on shifted.
pub open spec fn shifted_commands(data: Seq<u8>, off: int, n: int, shift: OffsetShift) -> Result<
    Seq<u8>,
    MachOError,
>
    decreases n,
{
    if n <= 0 {
        Ok(data)
    } else {
        match shifted_command(data, off, shift) {
            Err(e) => Err(e),
            Ok(next) => shifted_commands(
                next,
                off + command_size_at(data, off),
                n - 1,
                shift,
            ),
        }
    }
}

/// The two sequences differ at most inside `lo..hi`.
pub open spec fn same_outside(a: Seq<u8>, b: Seq<u8>, lo: int, hi: int) -> bool {
    a.len() == b.len() && forall|i: int| 0 <= i < a.len() && !(lo <= i < hi) ==> a[i] == b[i]
}

proof fn lemma_shifted_fields(
    data: Seq<u8>,
    base: int,
    fields: Seq<usize>,
    from: int,
    shift: OffsetShift,
    size: int,
)
    requires
        0 <= from,
        forall|i: int| 0 <= i < fields.len() ==> 8 <= #[trigger] fields[i] && fields[i] + 4 <= size,
    ensures
        shifted_fields(data, base, fields, from, shift) matches Ok(out) ==> same_outside(
            data,
            out,
            base + 8,
            base + size,
        ),
    decreases fields.len() - from,
{
    broadcast use group_field_len;

    if from < fields.len() {
        let at = base + fields[from];
        match shifted_offset(u32_at(data, at), shift) {
            Ok(v) => {
                lemma_shifted_fields(
                    overlay(data, at, le32(v)),
                    base,
                    fields,
                    from + 1,
                    shift,
                    size,
                );
            },
            Err(_) => {},
        }
    }
}

/// Shifting a command changes nothing but the command behind its number and size, and leaves
/// segment commands as they are.
pub proof fn lemma_shifted_command(data: Seq<u8>, off: int, shift: OffsetShift)
    ensures
        shifted_command(data, off, shift) matches Ok(out) ==> same_outside(
            data,
            out,
            off + 8,
            off + command_size_at(data, off),
        ),
        command_at(data, off) == LC_SEGMENT_64 ==> shifted_command(data, off, shift) == Ok::<
            Seq<u8>,
            MachOError,
        >(data),
{
    broadcast use group_field_len;

    let size = command_size_at(data, off);
    if size >= 24 {
        lemma_shifted_fields(data, off, SYMTAB_FIELDS@, 0, shift, size);
    }
    if size >= 80 {
        lemma_shifted_fields(data, off, DYSYMTAB_FIELDS@, 0, shift, size);
    }
    if size >= 48 {
        lemma_shifted_fields(data, off, DYLD_INFO_FIELDS@, 0, shift, size);
    }
    if size >= 16 {
        lemma_shifted_fields(data, off, LINKEDIT_DATA_FIELDS@, 0, shift, size);
    }
}

/// Where commands lie depends only on the bytes from the first of them on.
pub proof fn lemma_commands_lie_same(
    a: Seq<u8>,
    b: Seq<u8>,
    cmds_end: int,
    off: int,
    n: int,
)
    requires
        0 <= off,
        a.len() == b.len(),
        forall|i: int| off <= i < a.len() ==> a[i] == b[i],
        commands_lie(a, cmds_end, off, n),
    ensures
        commands_lie(b, cmds_end, off, n),
    decreases n,
{
    if n > 0 {
        assert(a.subrange(off + 4, off + 8) =~= b.subrange(off + 4, off + 8));
        lemma_u32_at_same(a, off + 4, b, off + 4);
        lemma_commands_lie_same(a, b, cmds_end, off + command_size_at(a, off), n - 1);
    }
}

/// Shift one offset.
fn shift_offset(value: u32, shift: &OffsetShift) -> (r: Result<u32, MachOError>)
    ensures
        r == shifted_offset(value, *shift),
{
    if value == 0 {
        return Ok(0);
    }
    let growth: u64 = if value as u64 >= shift.fixups_end {
        shift.growth
    } else {
        0
    };
    let moved: u64 = match (value as u64).checked_add(shift.delta) {
        Some(v) => v,
        None => return Err(MachOError::FileOffsetOverflow),
    };
    let grown: u64 = match moved.checked_add(growth) {
        Some(v) => v,
        None => return Err(MachOError::FileOffsetOverflow),
    };
    if grown > u32::MAX as u64 {
        return Err(MachOError::FileOffsetTooLarge);
    }
    Ok(grown as u32)
}

/// Shift the offsets of one command.
fn shift_fields(data: &mut Vec<u8>, base: usize, fields: &[usize], shift: &OffsetShift) -> (r: Result<
    (),
    MachOError,
>)
    requires
        forall|i: int|
            0 <= i < fields@.len() ==> base + #[trigger] fields@[i] + 4 <= old(data)@.len(),
    ensures
        match r {
            Ok(_) => shifted_fields(old(data)@, base as int, fields@, 0, *shift) == Ok::<
                Seq<u8>,
                MachOError,
            >(final(data)@) && final(data)@.len() == old(data)@.len(),
            Err(e) => shifted_fields(old(data)@, base as int, fields@, 0, *shift) == Err::<
                Seq<u8>,
                MachOError,
            >(e),
        },
{
    let ghost before = data@;
    let mut i: usize = 0;
    while i < fields.len()
        invariant
            i <= fields@.len(),
            before == old(data)@,
            before.len() == data@.len(),
            forall|j: int|
                0 <= j < fields@.len() ==> base + #[trigger] fields@[j] + 4 <= before.len(),
            shifted_fields(data@, base as int, fields@, i as int, *shift) == shifted_fields(
                before,
                base as int,
                fields@,
                0,
                *shift,
            ),
        decreases fields@.len() - i,
    {
        assert(base + fields@[i as int] + 4 <= before.len());
        assert(data.len() <= usize::MAX);
        let at: usize = base + fields[i];
        let moved: u32 = shift_offset(get_u32(data, at), shift)?;
        put_u32(data, at, moved);
        i = i + 1;
    }
    Ok(())
}

/// Commands that hold a file offset and a size and nothing else.
fn holds_linkedit_data(cmd: u32) -> (r: bool)
    ensures
        r == is_linkedit_data(cmd),
{
    cmd == LC_CODE_SIGNATURE || cmd == LC_SEGMENT_SPLIT_INFO || cmd == LC_FUNCTION_STARTS || cmd
        == LC_DATA_IN_CODE || cmd == LC_DYLIB_CODE_SIGN_DRS || cmd == LC_LINKER_OPTIMIZATION_HINT
        || cmd == LC_DYLD_EXPORTS_TRIE || cmd == LC_DYLD_CHAINED_FIXUPS || cmd == LC_ATOM_INFO
}

/// Shift the offsets of the command at `off`.
fn shift_command(data: &mut Vec<u8>, off: usize, shift: &OffsetShift) -> (r: Result<
    (),
    MachOError,
>)
    requires
        off + 8 <= old(data)@.len(),
        off + command_size_at(old(data)@, off as int) <= old(data)@.len(),
    ensures
        match r {
            Ok(_) => shifted_command(old(data)@, off as int, *shift) == Ok::<Seq<u8>, MachOError>(
                final(data)@,
            ) && final(data)@.len() == old(data)@.len(),
            Err(e) => shifted_command(old(data)@, off as int, *shift) == Err::<
                Seq<u8>,
                MachOError,
            >(e),
        },
{
    broadcast use group_field_len;

    assert(data.len() <= usize::MAX);
    let cmd: u32 = get_u32(data, off);
    let size: usize = get_u32(data, off + 4) as usize;
    if cmd == LC_SYMTAB {
        if size < 24 {
            return Err(MachOError::TruncatedSymtab);
        }
        shift_fields(data, off, &SYMTAB_FIELDS, shift)
    } else if cmd == LC_DYSYMTAB {
        if size < 80 {
            return Err(MachOError::TruncatedDysymtab);
        }
        shift_fields(data, off, &DYSYMTAB_FIELDS, shift)
    } else if cmd == LC_DYLD_INFO || cmd == LC_DYLD_INFO_ONLY {
        if size < 48 {
            return Err(MachOError::TruncatedDyldInfo);
        }
        shift_fields(data, off, &DYLD_INFO_FIELDS, shift)
    } else if holds_linkedit_data(cmd) {
        if size < 16 {
            return Err(MachOError::TruncatedLinkeditData);
        }
        shift_fields(data, off, &LINKEDIT_DATA_FIELDS, shift)?;
        if cmd == LC_DYLD_CHAINED_FIXUPS {
            match get_u32(data, off + 12).checked_add(shift.growth as u32) {
                Some(grown) => {
                    put_u32(data, off + 12, grown);
                },
                None => return Err(MachOError::FixupsSizeOverflow),
            }
        }
        Ok(())
    } else {
        Ok(())
    }
}

/// Shift the offsets of all commands.
pub fn shift_commands(
    data: &mut Vec<u8>,
    ncmds: u32,
    shift: &OffsetShift,
    cmds_end: usize,
) -> (r: Result<(), MachOError>)
    requires
        cmds_end <= old(data)@.len(),
        commands_lie(old(data)@, cmds_end as int, 32, ncmds as int),
    ensures
        match r {
            Ok(_) => shifted_commands(old(data)@, 32, ncmds as int, *shift) == Ok::<
                Seq<u8>,
                MachOError,
            >(final(data)@) && final(data)@.len() == old(data)@.len(),
            Err(e) => shifted_commands(old(data)@, 32, ncmds as int, *shift) == Err::<
                Seq<u8>,
                MachOError,
            >(e),
        },
{
    let ghost before = data@;
    let mut offset: usize = 32;
    let mut done: u32 = 0;
    while done < ncmds
        invariant
            32 <= offset,
            done <= ncmds,
            before == old(data)@,
            before.len() == data@.len(),
            cmds_end <= before.len(),
            commands_lie(data@, cmds_end as int, offset as int, ncmds - done),
            shifted_commands(data@, offset as int, ncmds - done, *shift) == shifted_commands(
                before,
                32,
                ncmds as int,
                *shift,
            ),
        decreases ncmds - done,
    {
        assert(data.len() <= usize::MAX);
        let ghost at_start = data@;
        let cmdsize: usize = get_u32(data, offset + 4) as usize;
        proof {
            lemma_shifted_command(data@, offset as int, *shift);
        }
        shift_command(data, offset, shift)?;
        proof {
            lemma_commands_lie_same(
                at_start,
                data@,
                cmds_end as int,
                offset + cmdsize,
                ncmds - done - 1,
            );
        }
        offset = offset + cmdsize;
        done = done + 1;
    }
    Ok(())
}

} // verus!
