//! Growing dyld's starts-in-image table.

use vstd::prelude::*;
use crate::bytes::{
    align_int, get_u32, group_field_len, le32, overlay, push_bytes, push_u32, put_u32, resize_zero,
    resized, u32_at,
};
use super::format::{read_u32, MachOError};

verus! {

/// The segment-info offsets of a starts-in-image table: the `count` fields behind the count.
pub open spec fn starts_table(blob: Seq<u8>, starts: int, count: int) -> Seq<u32> {
    Seq::new(count as nat, |i: int| u32_at(blob, starts + 4 + 4 * i))
}

/// `table` with `add` empty entries in front of the entry `index`.
pub open spec fn widened(table: Seq<u32>, index: int, add: int) -> Seq<u32> {
    table.subrange(0, index) + Seq::new(add as nat, |i: int| 0u32) + table.subrange(
        index,
        table.len() as int,
    )
}

/// A segment-info offset after everything behind the table moved by `growth` bytes. A zero offset
/// stands for a segment without fixups and stays zero.
pub open spec fn moved_info(value: u32, old_tail: int, growth: int) -> Result<u32, MachOError> {
    if value == 0 {
        Ok(0)
    } else if value < old_tail {
        Err(MachOError::FixupsInfoIntoArray(value))
    } else if growth > u32::MAX {
        Err(MachOError::FixupsGrowthTooLarge)
    } else if value + growth > u32::MAX {
        Err(MachOError::FixupsInfoOverflow)
    } else {
        Ok((value + growth) as u32)
    }
}

/// The bytes of the moved offsets `table[from..]`, or the error of the first that cannot be moved.
pub open spec fn moved_table(table: Seq<u32>, from: int, old_tail: int, growth: int) -> Result<
    Seq<u8>,
    MachOError,
>
    decreases table.len() - from,
{
    if from >= table.len() {
        Ok(Seq::empty())
    } else {
        match moved_info(table[from], old_tail, growth) {
            Err(e) => Err(e),
            Ok(v) => match moved_table(table, from + 1, old_tail, growth) {
                Err(e) => Err(e),
                Ok(rest) => Ok(le32(v) + rest),
            },
        }
    }
}

/// The header with the table offset at `field` moved by `growth`; a zero offset stays.
pub open spec fn moved_field(
    blob: Seq<u8>,
    out: Seq<u8>,
    field: int,
    old_tail: int,
    growth: int,
) -> Result<Seq<u8>, MachOError> {
    let value = u32_at(blob, field);
    if value == 0 {
        Ok(out)
    } else if value < old_tail {
        Err(MachOError::FixupsTableBeforeTail(value))
    } else if growth > u32::MAX {
        Err(MachOError::FixupsGrowthTooLarge)
    } else if value + growth > u32::MAX {
        Err(MachOError::FixupsTableOverflow)
    } else {
        Ok(overlay(out, field, le32((value + growth) as u32)))
    }
}

/// The bytes of a starts-in-image table with `count` entries, padded to eight bytes.
pub open spec fn table_tail(count: int) -> int {
    align_int(4 + 4 * count, 8)
}

/// Whether the sizes that a table of `old` entries and `add` more ones needs can be held.
pub open spec fn table_fits(blob: Seq<u8>, starts: int, old: int, add: int) -> Result<
    (),
    MachOError,
> {
    if 4 + 4 * old > usize::MAX || table_tail(old) > u64::MAX || table_tail(old) > usize::MAX {
        Err(MachOError::FixupsArrayOverflow)
    } else if old + add > u32::MAX {
        Err(MachOError::FixupsCountTooLarge)
    } else if 4 + 4 * (old + add) > usize::MAX || table_tail(old + add) > usize::MAX || starts
        + table_tail(old) > usize::MAX || starts + table_tail(old + add) > usize::MAX {
        Err(MachOError::FixupsArrayOverflow)
    } else if starts + table_tail(old) > blob.len() {
        Err(MachOError::FixupsArrayTruncated)
    } else if blob.len() + (table_tail(old + add) - table_tail(old)) > usize::MAX {
        Err(MachOError::FixupsArrayOverflow)
    } else {
        Ok(())
    }
}

/// The chained-fixups blob after `add` empty segment entries were put in front of the entry
/// `index`, and the number of bytes that it grew by.
///
/// The offset array keeps its order, everything behind its padding moves by the growth, and the
/// offsets that point behind it move along.
pub open spec fn grown_fixups(blob: Seq<u8>, index: int, add: int, segments: int) -> Result<
    (Seq<u8>, int),
    MachOError,
> {
    let starts = u32_at(blob, 4) as int;
    let old = u32_at(blob, starts) as int;
    let old_tail = table_tail(old);
    let new_tail = table_tail(old + add);
    let growth = new_tail - old_tail;
    if blob.len() < 4 {
        Err(MachOError::TruncatedFixups)
    } else if u32_at(blob, 0) != 0 {
        Err(MachOError::FixupsVersion(u32_at(blob, 0)))
    } else if blob.len() < 8 {
        Err(MachOError::TruncatedFixups)
    } else if starts < 28 {
        Err(MachOError::FixupsStartsOverlapHeader(starts as usize))
    } else if starts + 4 > blob.len() {
        Err(MachOError::TruncatedFixups)
    } else if old != segments {
        Err(MachOError::FixupsSegmentCount { found: old as usize, expected: segments as usize })
    } else if index > old {
        Err(MachOError::FixupsSegmentIndex { index: index as usize, count: old as usize })
    } else {
        match table_fits(blob, starts, old, add) {
            Err(e) => Err(e),
            Ok(_) => match moved_table(
                widened(starts_table(blob, starts, old), index, add),
                0,
                old_tail,
                growth,
            ) {
                Err(e) => Err(e),
                Ok(table) => {
                    let body = resized(
                        blob.subrange(0, starts) + le32((old + add) as u32) + table,
                        starts + new_tail,
                    ) + blob.subrange(starts + old_tail, blob.len() as int);
                    match moved_field(blob, body, 8, starts + old_tail, growth) {
                        Err(e) => Err(e),
                        Ok(once) => match moved_field(blob, once, 12, starts + old_tail, growth) {
                            Err(e) => Err(e),
                            Ok(out) => Ok((out, growth)),
                        },
                    }
                },
            },
        }
    }
}

pub(crate) proof fn lemma_table_tail(old: int, add: int)
    requires
        0 <= old,
        0 <= add,
    ensures
        4 + 4 * old <= table_tail(old) <= 4 + 4 * old + 4,
        table_tail(old) <= table_tail(old + add),
{
    assert((4 + 4 * old) % 8 == 0 || (4 + 4 * old) % 8 == 4);
    assert((4 + 4 * (old + add)) % 8 == 0 || (4 + 4 * (old + add)) % 8 == 4);
}

/// Check that the grown table can be held; gives the old and the new tail offsets of the table.
fn check_table(blob: &[u8], starts: usize, old: usize, add: usize) -> (r: Result<
    (usize, usize),
    MachOError,
>)
    requires
        28 <= starts <= u32::MAX,
        old <= u32::MAX,
        starts + 4 <= blob@.len(),
    ensures
        match r {
            Ok((o, n)) => table_fits(blob@, starts as int, old as int, add as int) == Ok::<
                (),
                MachOError,
            >(()) && o == table_tail(old as int) && n == table_tail(old + add) && o <= n
                && starts + o <= blob@.len() && blob@.len() + (n - o) <= usize::MAX && starts + n
                <= usize::MAX,
            Err(e) => table_fits(blob@, starts as int, old as int, add as int) == Err::<
                (),
                MachOError,
            >(e),
        },
{
    proof {
        lemma_table_tail(old as int, add as int);
    }
    if old > (usize::MAX - 4) / 4 {
        return Err(MachOError::FixupsArrayOverflow);
    }
    let old_array: usize = 4 + 4 * old;
    if old_array % 8 != 0 && old_array > usize::MAX - 4 {
        return Err(MachOError::FixupsArrayOverflow);
    }
    let old_tail: usize = if old_array % 8 == 0 {
        old_array
    } else {
        old_array + 4
    };
    if add as u64 > u32::MAX as u64 || old as u64 + add as u64 > u32::MAX as u64 {
        return Err(MachOError::FixupsCountTooLarge);
    }
    let count: usize = old + add;
    if count > (usize::MAX - 4) / 4 {
        return Err(MachOError::FixupsArrayOverflow);
    }
    let new_array: usize = 4 + 4 * count;
    if new_array % 8 != 0 && new_array > usize::MAX - 4 {
        return Err(MachOError::FixupsArrayOverflow);
    }
    let new_tail: usize = if new_array % 8 == 0 {
        new_array
    } else {
        new_array + 4
    };
    if starts > usize::MAX - old_tail || starts > usize::MAX - new_tail {
        return Err(MachOError::FixupsArrayOverflow);
    }
    if starts + old_tail > blob.len() {
        return Err(MachOError::FixupsArrayTruncated);
    }
    if blob.len() > usize::MAX - (new_tail - old_tail) {
        return Err(MachOError::FixupsArrayOverflow);
    }
    Ok((old_tail, new_tail))
}

/// Move one segment-info offset.
fn move_info(value: u32, old_tail: usize, growth: usize) -> (r: Result<u32, MachOError>)
    ensures
        r == moved_info(value, old_tail as int, growth as int),
{
    if value == 0 {
        return Ok(0);
    }
    if (value as usize) < old_tail {
        return Err(MachOError::FixupsInfoIntoArray(value));
    }
    if growth as u64 > u32::MAX as u64 {
        return Err(MachOError::FixupsGrowthTooLarge);
    }
    match value.checked_add(growth as u32) {
        Some(v) => Ok(v),
        None => Err(MachOError::FixupsInfoOverflow),
    }
}

/// Move one header-relative table offset.
fn move_field(
    blob: &[u8],
    out: &mut Vec<u8>,
    field: usize,
    old_tail: usize,
    growth: usize,
) -> (r: Result<(), MachOError>)
    requires
        field + 4 <= blob@.len(),
        field + 4 <= old(out)@.len(),
    ensures
        match r {
            Ok(_) => moved_field(blob@, old(out)@, field as int, old_tail as int, growth as int)
                == Ok::<Seq<u8>, MachOError>(final(out)@) && final(out)@.len() == old(out)@.len(),
            Err(e) => moved_field(blob@, old(out)@, field as int, old_tail as int, growth as int)
                == Err::<Seq<u8>, MachOError>(e),
        },
{
    let value: u32 = get_u32(blob, field);
    if value == 0 {
        return Ok(());
    }
    if (value as usize) < old_tail {
        return Err(MachOError::FixupsTableBeforeTail(value));
    }
    if growth as u64 > u32::MAX as u64 {
        return Err(MachOError::FixupsGrowthTooLarge);
    }
    match value.checked_add(growth as u32) {
        Some(v) => {
            put_u32(out, field, v);
            Ok(())
        },
        None => Err(MachOError::FixupsTableOverflow),
    }
}

/// Add adjacent fixup-free segment entries to dyld's starts-in-image table in one operation.
/// The offset array and its trailing alignment are grown by the exact required byte count.
pub fn grow_chained_fixups(
    blob: &[u8],
    insert_index: usize,
    add_count: usize,
    segment_count: usize,
) -> (r: Result<(Vec<u8>, usize), MachOError>)
    ensures
        match r {
            Ok((out, growth)) => grown_fixups(
                blob@,
                insert_index as int,
                add_count as int,
                segment_count as int,
            ) == Ok::<(Seq<u8>, int), MachOError>((out@, growth as int)) && out@.len()
                == blob@.len() + growth,
            Err(e) => grown_fixups(
                blob@,
                insert_index as int,
                add_count as int,
                segment_count as int,
            ) == Err::<(Seq<u8>, int), MachOError>(e),
        },
{
    broadcast use group_field_len;

    let version: u32 = read_u32(blob, 0)?;
    if version != 0 {
        return Err(MachOError::FixupsVersion(version));
    }
    let starts: usize = read_u32(blob, 4)? as usize;
    if starts < 28 {
        return Err(MachOError::FixupsStartsOverlapHeader(starts));
    }
    let old_count: usize = read_u32(blob, starts)? as usize;
    if old_count != segment_count {
        return Err(
            MachOError::FixupsSegmentCount { found: old_count, expected: segment_count },
        );
    }
    if insert_index > old_count {
        return Err(MachOError::FixupsSegmentIndex { index: insert_index, count: old_count });
    }
    let (old_tail, new_tail) = check_table(blob, starts, old_count, add_count)?;
    proof {
        lemma_table_tail(old_count as int, add_count as int);
        lemma_table_tail(old_count + add_count, 0);
    }
    let growth: usize = new_tail - old_tail;
    let new_count: usize = old_count + add_count;
    let ghost table = starts_table(blob@, starts as int, old_count as int);
    let ghost wide = widened(table, insert_index as int, add_count as int);

    let mut out: Vec<u8> = Vec::with_capacity(blob.len() + growth);
    push_bytes(&mut out, &blob[0..starts]);
    push_u32(&mut out, new_count as u32);
    let ghost front = out@;
    assert(front =~= blob@.subrange(0, starts as int) + le32(new_count as u32));
    let ghost mut done: Seq<u8> = Seq::empty();
    assert(front + done =~= front);
    let mut index: usize = 0;
    while index < new_count
        invariant
            index <= new_count,
            new_count == old_count + add_count,
            new_count <= u32::MAX,
            insert_index <= old_count,
            starts + old_tail <= blob@.len() <= usize::MAX,
            4 + 4 * old_count <= old_tail,
            table == starts_table(blob@, starts as int, old_count as int),
            wide == widened(table, insert_index as int, add_count as int),
            wide.len() == new_count,
            out@ == front + done,
            done.len() == 4 * index,
            moved_table(wide, 0, old_tail as int, growth as int) matches Err(e)
                ==> grown_fixups(
                blob@,
                insert_index as int,
                add_count as int,
                segment_count as int,
            ) == Err::<(Seq<u8>, int), MachOError>(e),
            match moved_table(wide, index as int, old_tail as int, growth as int) {
                Ok(rest) => moved_table(wide, 0, old_tail as int, growth as int) == Ok::<
                    Seq<u8>,
                    MachOError,
                >(done + rest),
                Err(e) => moved_table(wide, 0, old_tail as int, growth as int) == Err::<
                    Seq<u8>,
                    MachOError,
                >(e),
            },
        decreases new_count - index,
    {
        broadcast use group_field_len;

        let value: u32 = if index < insert_index {
            get_u32(blob, starts + 4 + index * 4)
        } else if index - insert_index < add_count {
            0
        } else {
            get_u32(blob, starts + 4 + (index - add_count) * 4)
        };
        assert(value == wide[index as int]);
        let moved: u32 = move_info(value, old_tail, growth)?;
        push_u32(&mut out, moved);
        proof {
            let rest = moved_table(wide, index + 1, old_tail as int, growth as int);
            match rest {
                Ok(r) => {
                    assert(done + (le32(moved) + r) =~= (done + le32(moved)) + r);
                },
                Err(_) => {},
            }
            done = done + le32(moved);
        }
        assert(out@ =~= front + done);
        index = index + 1;
    }
    assert(done + Seq::<u8>::empty() =~= done);
    resize_zero(&mut out, starts + new_tail);
    push_bytes(&mut out, &blob[starts + old_tail..blob.len()]);

    // imports_offset and symbols_offset are header-relative pointers into the shifted tail.
    move_field(blob, &mut out, 8, starts + old_tail, growth)?;
    move_field(blob, &mut out, 12, starts + old_tail, growth)?;
    Ok((out, growth))
}

} // verus!
