//! The entries and the string table of a manifest.

use vstd::prelude::*;
use vstd::utf8::*;
use crate::bytes::{copy_bytes, push_bytes};
use crate::order::{distinct_order, keys, keys_at, rank_items, sorted_form, Ranked};
use super::format::{
    entry_bytes, fnv, fnv1a64, push_entry, symbol_models, ManifestEntry, ManifestError,
    ManifestInput, ManifestSymbol, SymbolModel, FLAG_DISPLAY, FLAG_DUP_NAME, FLAG_LOCAL,
    FLAG_MULTI_NAME,
};

verus! {

/// The flags of two records of one name at one address. A record from any real (non-display,
/// non-local) source clears the corresponding marker on the merged entry.
pub open spec fn merged_flags(old_flags: u32, new_flags: u32) -> u32 {
    let a = if new_flags & FLAG_LOCAL == 0 {
        old_flags & !FLAG_LOCAL
    } else {
        old_flags
    };
    let b = if new_flags & FLAG_DISPLAY == 0 {
        a & !FLAG_DISPLAY
    } else {
        a
    };
    b | (new_flags & !(FLAG_LOCAL | FLAG_DISPLAY))
}

/// Whether a record is a display alias.
pub open spec fn is_display(flags: u32) -> bool {
    flags & FLAG_DISPLAY != 0
}

/// Whether one of the records is at `rva`.
pub open spec fn has_rva(records: Seq<(u64, u32)>, rva: u64) -> bool {
    exists|i: int| 0 <= i < records.len() && (#[trigger] records[i]).0 == rva
}

/// The records with one more: merged into the record at its address, or behind all others.
pub open spec fn with_record(records: Seq<(u64, u32)>, rva: u64, flags: u32) -> Seq<(u64, u32)> {
    if has_rva(records, rva) {
        Seq::new(
            records.len(),
            |i: int|
                if records[i].0 == rva {
                    (rva, merged_flags(records[i].1, flags))
                } else {
                    records[i]
                },
        )
    } else {
        records.push((rva, flags))
    }
}

/// The addresses and flags that the symbols give the name `name`.
pub open spec fn records_of(symbols: Seq<SymbolModel>, name: Seq<u8>) -> Seq<(u64, u32)>
    decreases symbols.len(),
{
    if symbols.len() == 0 {
        Seq::empty()
    } else if symbols.last().name == name {
        with_record(
            records_of(symbols.drop_last(), name),
            symbols.last().rva,
            symbols.last().flags,
        )
    } else {
        records_of(symbols.drop_last(), name)
    }
}

/// Whether one of the records is no display alias.
pub open spec fn has_real(records: Seq<(u64, u32)>) -> bool {
    exists|i: int| 0 <= i < records.len() && !is_display((#[trigger] records[i]).1)
}

/// The records that are kept: a display alias that collides with a real symbol's name at a different
/// address would make that real name ambiguous; the real name wins.
pub open spec fn kept_records(records: Seq<(u64, u32)>) -> Seq<(u64, u32)> {
    if has_real(records) {
        records.filter(|r: (u64, u32)| !is_display(r.1))
    } else {
        records
    }
}

/// The distinct names, in order.
pub open spec fn name_table(symbols: Seq<SymbolModel>) -> Seq<Seq<u8>> {
    sorted_form::<Vec<u8>>(Seq::new(symbols.len(), |i: int| symbols[i].name))
}

/// A record together with the place of its name in the name table.
pub struct NamedRecord {
    pub name: int,
    pub rva: u64,
    pub flags: u32,
}

/// The kept records of the first `n` names, name by name.
pub open spec fn named_records(symbols: Seq<SymbolModel>, names: Seq<Seq<u8>>, n: int) -> Seq<
    NamedRecord,
>
    decreases n,
{
    if n <= 0 {
        Seq::empty()
    } else {
        let kept = kept_records(records_of(symbols, names[n - 1]));
        named_records(symbols, names, n - 1) + Seq::new(
            kept.len(),
            |j: int| NamedRecord { name: n - 1, rva: kept[j].0, flags: kept[j].1 },
        )
    }
}

/// The number of real names at `rva`. Display aliases do not count.
pub open spec fn names_at(records: Seq<NamedRecord>, rva: u64) -> nat {
    records.filter(|r: NamedRecord| r.rva == rva && !is_display(r.flags)).len()
}

/// The place of the name `n` in the string table.
pub open spec fn name_offset(names: Seq<Seq<u8>>, n: int) -> int
    decreases n,
{
    if n <= 0 {
        0
    } else {
        name_offset(names, n - 1) + names[n - 1].len() + 1
    }
}

/// The first `n` names, each with a zero byte behind it.
pub open spec fn string_table(names: Seq<Seq<u8>>, n: int) -> Seq<u8>
    decreases n,
{
    if n <= 0 {
        Seq::empty()
    } else {
        string_table(names, n - 1) + names[n - 1] + seq![0u8]
    }
}

/// The flags of an entry: those of its record, whether its name has other addresses, and whether its
/// address has other names.
pub open spec fn entry_flags(flags: u32, is_dup: bool, is_multi: bool) -> u32 {
    let a = if is_dup {
        flags | FLAG_DUP_NAME
    } else {
        flags
    };
    if is_multi {
        a | FLAG_MULTI_NAME
    } else {
        a
    }
}

/// The entry of a record.
pub open spec fn entry_of(
    symbols: Seq<SymbolModel>,
    names: Seq<Seq<u8>>,
    records: Seq<NamedRecord>,
    record: NamedRecord,
) -> ManifestEntry {
    let name = names[record.name];
    ManifestEntry {
        hash: fnv(name),
        rva: record.rva,
        name_off: name_offset(names, record.name) as u32,
        flags: entry_flags(
            record.flags,
            kept_records(records_of(symbols, name)).len() > 1,
            names_at(records, record.rva) > 1,
        ),
    }
}

/// The entries of a manifest, name by name.
pub open spec fn entries_of(symbols: Seq<SymbolModel>) -> Seq<ManifestEntry> {
    let names = name_table(symbols);
    let records = named_records(symbols, names, names.len() as int);
    Seq::new(records.len(), |i: int| entry_of(symbols, names, records, records[i]))
}

/// The bytes of the entries.
pub open spec fn entries_bytes(entries: Seq<ManifestEntry>) -> Seq<u8>
    decreases entries.len(),
{
    if entries.len() == 0 {
        Seq::empty()
    } else {
        entries_bytes(entries.drop_last()) + entry_bytes(entries.last())
    }
}

/// Whether every name begins at an offset that a 32-bit field can hold.
pub open spec fn strings_fit(names: Seq<Seq<u8>>) -> bool {
    forall|i: int| 0 <= i < names.len() ==> #[trigger] name_offset(names, i) <= u32::MAX
}

/// The payload of a manifest and the number of its entries.
pub open spec fn payload_of(symbols: Seq<SymbolModel>) -> Result<(Seq<u8>, int), ManifestError> {
    let names = name_table(symbols);
    let entries = sorted_form::<ManifestEntry>(entries_of(symbols));
    if !strings_fit(names) {
        Err(ManifestError::StringTableTooLarge)
    } else {
        Ok(
            (
                entries_bytes(entries) + string_table(names, names.len() as int),
                entries.len() as int,
            ),
        )
    }
}

/// No two records are at the same address.
pub open spec fn distinct_rvas(records: Seq<(u64, u32)>) -> bool {
    forall|i: int, j: int|
        0 <= i < j < records.len() ==> (#[trigger] records[i]).0 != (#[trigger] records[j]).0
}

pub proof fn lemma_with_record_distinct(records: Seq<(u64, u32)>, rva: u64, flags: u32)
    requires
        distinct_rvas(records),
    ensures
        distinct_rvas(with_record(records, rva, flags)),
{
    let more = with_record(records, rva, flags);
    if !has_rva(records, rva) {
        assert forall|i: int, j: int| 0 <= i < j < more.len() implies (#[trigger] more[i]).0 != (
        #[trigger] more[j]).0 by {
            if j == records.len() {
                assert(records[i].0 != rva);
            }
        }
    } else {
        assert forall|i: int, j: int| 0 <= i < j < more.len() implies (#[trigger] more[i]).0 != (
        #[trigger] more[j]).0 by {
            assert(records[i].0 != records[j].0);
        }
    }
}

/// Merge a record into those of its name.
fn add_record(records: &mut Vec<(u64, u32)>, rva: u64, flags: u32)
    requires
        distinct_rvas(old(records)@),
    ensures
        final(records)@ == with_record(old(records)@, rva, flags),
        distinct_rvas(final(records)@),
{
    let ghost before = records@;
    proof {
        lemma_with_record_distinct(before, rva, flags);
    }
    let mut i: usize = 0;
    while i < records.len()
        invariant
            i <= records@.len(),
            records@ == before,
            before == old(records)@,
            distinct_rvas(before),
            distinct_rvas(with_record(before, rva, flags)),
            forall|j: int| 0 <= j < i ==> (#[trigger] before[j]).0 != rva,
        decreases records@.len() - i,
    {
        if records[i].0 == rva {
            let mut merged: u32 = records[i].1;
            if flags & FLAG_LOCAL == 0 {
                merged = merged & !FLAG_LOCAL;
            }
            if flags & FLAG_DISPLAY == 0 {
                merged = merged & !FLAG_DISPLAY;
            }
            merged = merged | (flags & !(FLAG_LOCAL | FLAG_DISPLAY));
            assert(has_rva(before, rva));
            records.set(i, (rva, merged));
            assert(records@ =~= with_record(before, rva, flags)) by {
                assert forall|j: int| 0 <= j < before.len() implies records@[j] == with_record(
                    before,
                    rva,
                    flags,
                )[j] by {
                    if j > i {
                        assert(before[i as int].0 != before[j].0);
                    }
                }
            }
            return;
        }
        i = i + 1;
    }
    assert(!has_rva(before, rva));
    records.push((rva, flags));
}

/// The records that are kept.
fn keep_records(records: &Vec<(u64, u32)>) -> (kept: Vec<(u64, u32)>)
    ensures
        kept@ == kept_records(records@),
{
    let mut any_real: bool = false;
    let mut i: usize = 0;
    while i < records.len()
        invariant
            i <= records@.len(),
            any_real == exists|j: int| 0 <= j < i && !is_display((#[trigger] records@[j]).1),
        decreases records@.len() - i,
    {
        if records[i].1 & FLAG_DISPLAY == 0 {
            assert(!is_display(records@[i as int].1));
            any_real = true;
        }
        i = i + 1;
    }
    let ghost pred = |r: (u64, u32)| !is_display(r.1);
    let mut kept: Vec<(u64, u32)> = Vec::new();
    i = 0;
    assert(records@.subrange(0, 0) =~= Seq::<(u64, u32)>::empty());
    while i < records.len()
        invariant
            i <= records@.len(),
            pred == (|r: (u64, u32)| !is_display(r.1)),
            kept@ == (if any_real {
                records@.subrange(0, i as int).filter(pred)
            } else {
                records@.subrange(0, i as int)
            }),
        decreases records@.len() - i,
    {
        let ghost more = records@.subrange(0, i + 1);
        assert(more.drop_last() =~= records@.subrange(0, i as int));
        assert(more.last() == records@[i as int]);
        proof {
            reveal(Seq::filter);
        }
        if !any_real || records[i].1 & FLAG_DISPLAY == 0 {
            kept.push(records[i]);
        }
        i = i + 1;
        assert(!any_real ==> kept@ =~= records@.subrange(0, i as int));
    }
    assert(records@.subrange(0, records@.len() as int) =~= records@);
    kept
}

/// The names of the symbols as bytes.
fn names_as_bytes(symbols: &[ManifestSymbol]) -> (names: Vec<Vec<u8>>)
    ensures
        keys(names@) == Seq::new(symbols@.len(), |i: int| symbol_models(symbols@)[i].name),
{
    let mut names: Vec<Vec<u8>> = Vec::with_capacity(symbols.len());
    let mut i: usize = 0;
    while i < symbols.len()
        invariant
            i <= symbols@.len(),
            names@.len() == i,
            forall|j: int| 0 <= j < i ==> (#[trigger] names@[j])@ == symbols@[j]@.name,
        decreases symbols@.len() - i,
    {
        names.push(copy_bytes(symbols[i].name.as_str().as_bytes()));
        i = i + 1;
    }
    assert(keys(names@) =~= Seq::new(symbols@.len(), |i: int| symbol_models(symbols@)[i].name));
    names
}

/// The records of each name.
fn gather_records(
    symbols: &[ManifestSymbol],
    ranks: &Vec<usize>,
    count: usize,
    Ghost(names): Ghost<Seq<Seq<u8>>>,
) -> (records: Vec<Vec<(u64, u32)>>)
    requires
        names.len() == count,
        ranks@.len() == symbols@.len(),
        forall|i: int|
            0 <= i < symbols@.len() ==> (#[trigger] ranks@[i]) < count && names[ranks@[i] as int]
                == symbols@[i]@.name,
        forall|i: int, j: int| 0 <= i < j < names.len() ==> names[i] != names[j],
    ensures
        records@.len() == count,
        forall|g: int|
            0 <= g < count ==> (#[trigger] records@[g])@ == records_of(
                symbol_models(symbols@),
                names[g],
            ),
{
    let mut records: Vec<Vec<(u64, u32)>> = Vec::with_capacity(count);
    let ghost models = symbol_models(symbols@);
    let mut i: usize = 0;
    while i < count
        invariant
            i <= count,
            records@.len() == i,
            forall|g: int| 0 <= g < i ==> (#[trigger] records@[g])@ == Seq::<(u64, u32)>::empty(),
        decreases count - i,
    {
        records.push(Vec::new());
        i = i + 1;
    }
    i = 0;
    while i < symbols.len()
        invariant
            i <= symbols@.len(),
            models == symbol_models(symbols@),
            names.len() == count,
            ranks@.len() == symbols@.len(),
            forall|i: int|
                0 <= i < symbols@.len() ==> (#[trigger] ranks@[i]) < count && names[ranks@[i] as int]
                    == symbols@[i]@.name,
            forall|i: int, j: int| 0 <= i < j < names.len() ==> names[i] != names[j],
            records@.len() == count,
            forall|g: int|
                0 <= g < count ==> (#[trigger] records@[g])@ == records_of(
                    models.subrange(0, i as int),
                    names[g],
                ) && distinct_rvas(records@[g]@),
        decreases symbols@.len() - i,
    {
        let ghost before = records@;
        let group: usize = ranks[i];
        assert(ranks@[i as int] < count);
        add_record(&mut records[group], symbols[i].rva, symbols[i].flags);
        proof {
            let more = models.subrange(0, i + 1);
            assert(more.drop_last() =~= models.subrange(0, i as int));
            assert(more.last() == symbols@[i as int]@);
            assert forall|g: int| 0 <= g < count implies (#[trigger] records@[g])@ == records_of(
                more,
                names[g],
            ) && distinct_rvas(records@[g]@) by {
                assert(before[g]@ == records_of(models.subrange(0, i as int), names[g]));
                if g < group {
                    assert(names[g] != names[group as int]);
                } else if g > group {
                    assert(names[group as int] != names[g]);
                }
            }
        }
        i = i + 1;
    }
    assert(models.subrange(0, models.len() as int) =~= models);
    records
}

/// A kept record together with the place of its name.
#[derive(Clone, Copy)]
struct PlacedRecord {
    name: usize,
    rva: u64,
    flags: u32,
}

spec fn placed_models(records: Seq<PlacedRecord>) -> Seq<NamedRecord> {
    Seq::new(
        records.len(),
        |i: int|
            NamedRecord {
                name: records[i].name as int,
                rva: records[i].rva,
                flags: records[i].flags,
            },
    )
}

/// The kept records of all names, name by name.
fn place_records(
    kept: &Vec<Vec<(u64, u32)>>,
    Ghost(symbols): Ghost<Seq<SymbolModel>>,
    Ghost(names): Ghost<Seq<Seq<u8>>>,
) -> (placed: Vec<PlacedRecord>)
    requires
        kept@.len() == names.len(),
        forall|g: int|
            0 <= g < kept@.len() ==> (#[trigger] kept@[g])@ == kept_records(
                records_of(symbols, names[g]),
            ),
    ensures
        placed_models(placed@) == named_records(symbols, names, names.len() as int),
{
    let mut placed: Vec<PlacedRecord> = Vec::new();
    let mut name: usize = 0;
    assert(placed_models(placed@) =~= Seq::<NamedRecord>::empty());
    while name < kept.len()
        invariant
            name <= kept@.len(),
            kept@.len() == names.len(),
            forall|g: int|
                0 <= g < kept@.len() ==> (#[trigger] kept@[g])@ == kept_records(
                    records_of(symbols, names[g]),
                ),
            placed_models(placed@) == named_records(symbols, names, name as int),
        decreases kept@.len() - name,
    {
        let ghost before = placed_models(placed@);
        let group: &Vec<(u64, u32)> = &kept[name];
        let mut j: usize = 0;
        assert(group@ == kept_records(records_of(symbols, names[name as int])));
        while j < group.len()
            invariant
                j <= group@.len(),
                placed_models(placed@) =~= before + Seq::new(
                    j as nat,
                    |k: int|
                        NamedRecord { name: name as int, rva: group@[k].0, flags: group@[k].1 },
                ),
            decreases group@.len() - j,
        {
            let ghost so_far = placed@;
            placed.push(PlacedRecord { name, rva: group[j].0, flags: group[j].1 });
            assert(placed_models(placed@) =~= placed_models(so_far).push(
                NamedRecord {
                    name: name as int,
                    rva: group@[j as int].0,
                    flags: group@[j as int].1,
                },
            ));
            j = j + 1;
        }
        name = name + 1;
        assert(placed_models(placed@) =~= named_records(symbols, names, name as int));
    }
    placed
}

/// For each record whether its address has more than one real name.
fn find_multi_names(placed: &Vec<PlacedRecord>) -> (multi: Vec<bool>)
    ensures
        multi@.len() == placed@.len(),
        forall|k: int|
            0 <= k < placed@.len() ==> #[trigger] multi@[k] == (names_at(
                placed_models(placed@),
                placed@[k].rva,
            ) > 1),
{
    let ghost models = placed_models(placed@);
    let mut rvas: Vec<u64> = Vec::with_capacity(placed.len());
    let mut i: usize = 0;
    while i < placed.len()
        invariant
            i <= placed@.len(),
            rvas@.len() == i,
            forall|j: int| 0 <= j < i ==> #[trigger] rvas@[j] == placed@[j].rva,
        decreases placed@.len() - i,
    {
        rvas.push(placed[i].rva);
        i = i + 1;
    }
    let (places, ranks) = rank_items(&rvas);
    let mut counts: Vec<usize> = Vec::with_capacity(places.len());
    i = 0;
    while i < places.len()
        invariant
            i <= places@.len(),
            counts@.len() == i,
            forall|g: int| 0 <= g < i ==> #[trigger] counts@[g] == 0,
        decreases places@.len() - i,
    {
        counts.push(0);
        i = i + 1;
    }
    proof {
        let t = keys_at(rvas@, places@);
        assert forall|a: int, b: int| 0 <= a < b < places@.len() implies rvas@[(
        #[trigger] places@[a]) as int] != rvas@[(#[trigger] places@[b]) as int] by {
            assert(u64::precedes(t[a], t[b]));
        }
        assert forall|j: int| 0 <= j < rvas@.len() implies (#[trigger] ranks@[j]) < places@.len()
            && rvas@[places@[ranks@[j] as int] as int] == rvas@[j] by {
            assert(rvas@[places@[ranks@[j] as int] as int].key() == rvas@[j].key());
        }
    }
    i = 0;
    assert(models.subrange(0, 0) =~= Seq::<NamedRecord>::empty());
    proof {
        reveal(Seq::filter);
    }
    while i < placed.len()
        invariant
            i <= placed@.len(),
            models == placed_models(placed@),
            rvas@.len() == placed@.len(),
            forall|j: int| 0 <= j < rvas@.len() ==> #[trigger] rvas@[j] == placed@[j].rva,
            ranks@.len() == rvas@.len(),
            counts@.len() == places@.len(),
            forall|k: int| 0 <= k < places@.len() ==> (#[trigger] places@[k]) < rvas@.len(),
            forall|j: int|
                0 <= j < rvas@.len() ==> (#[trigger] ranks@[j]) < places@.len()
                    && rvas@[places@[ranks@[j] as int] as int] == rvas@[j],
            forall|a: int, b: int|
                0 <= a < b < places@.len() ==> rvas@[(#[trigger] places@[a]) as int]
                    != rvas@[(#[trigger] places@[b]) as int],
            forall|g: int|
                0 <= g < places@.len() ==> #[trigger] counts@[g] <= i && counts@[g] == names_at(
                    models.subrange(0, i as int),
                    rvas@[places@[g] as int],
                ),
        decreases placed@.len() - i,
    {
        let ghost before = counts@;
        let rank: usize = ranks[i];
        assert(ranks@[i as int] < places@.len());
        if placed[i].flags & FLAG_DISPLAY == 0 {
            assert(counts@[rank as int] <= i);
            counts.set(rank, counts[rank] + 1);
        }
        proof {
            let more = models.subrange(0, i + 1);
            assert(more.drop_last() =~= models.subrange(0, i as int));
            assert(more.last() == models[i as int]);
            reveal(Seq::filter);
            assert forall|g: int| 0 <= g < places@.len() implies #[trigger] counts@[g] <= i + 1
                && counts@[g] == names_at(more, rvas@[places@[g] as int]) by {
                assert(before[g] <= i);
                let rva = rvas@[places@[g] as int];
                if g != rank {
                    if g < rank {
                        assert(rvas@[places@[g] as int] != rvas@[places@[rank as int] as int]);
                    } else {
                        assert(rvas@[places@[rank as int] as int] != rvas@[places@[g] as int]);
                    }
                    assert(models[i as int].rva != rva);
                }
            }
        }
        i = i + 1;
    }
    assert(models.subrange(0, models.len() as int) =~= models);
    let mut multi: Vec<bool> = Vec::with_capacity(placed.len());
    i = 0;
    while i < placed.len()
        invariant
            i <= placed@.len(),
            multi@.len() == i,
            rvas@.len() == placed@.len(),
            ranks@.len() == rvas@.len(),
            counts@.len() == places@.len(),
            forall|j: int| 0 <= j < rvas@.len() ==> #[trigger] rvas@[j] == placed@[j].rva,
            forall|j: int|
                0 <= j < rvas@.len() ==> (#[trigger] ranks@[j]) < places@.len()
                    && rvas@[places@[ranks@[j] as int] as int] == rvas@[j],
            forall|g: int|
                0 <= g < places@.len() ==> #[trigger] counts@[g] == names_at(
                    models,
                    rvas@[places@[g] as int],
                ),
            forall|k: int|
                0 <= k < i ==> #[trigger] multi@[k] == (names_at(models, placed@[k].rva) > 1),
        decreases placed@.len() - i,
    {
        assert(ranks@[i as int] < places@.len());
        assert(rvas@[i as int] == placed@[i as int].rva);
        multi.push(counts[ranks[i]] > 1);
        i = i + 1;
    }
    multi
}

/// Name offsets only grow.
pub proof fn lemma_name_offset(names: Seq<Seq<u8>>, i: int, n: int)
    requires
        0 <= i <= n <= names.len(),
    ensures
        0 <= name_offset(names, i) <= name_offset(names, n),
        i < n ==> name_offset(names, i) + names[i].len() + 1 <= name_offset(names, n),
        string_table(names, n).len() == name_offset(names, n),
    decreases n,
{
    if n > 0 {
        if i < n {
            lemma_name_offset(names, i, n - 1);
        } else {
            lemma_name_offset(names, n - 1, n - 1);
        }
    }
}

/// The string table and the place of each name in it.
fn make_strings(all_names: &Vec<Vec<u8>>, places: &Vec<usize>) -> (r: Result<
    (Vec<u8>, Vec<u32>),
    ManifestError,
>)
    requires
        forall|k: int| 0 <= k < places@.len() ==> (#[trigger] places@[k]) < all_names@.len(),
    ensures
        ({
            let names = keys_at(all_names@, places@);
            match r {
                Ok((strings, offsets)) => strings_fit(names) && strings@ == string_table(
                    names,
                    names.len() as int,
                ) && offsets@.len() == names.len() && (forall|k: int|
                    0 <= k < names.len() ==> #[trigger] offsets@[k] == name_offset(names, k)),
                Err(e) => e == ManifestError::StringTableTooLarge && !strings_fit(names),
            }
        }),
{
    let ghost names = keys_at(all_names@, places@);
    let mut strings: Vec<u8> = Vec::new();
    let mut offsets: Vec<u32> = Vec::with_capacity(places.len());
    let mut i: usize = 0;
    while i < places.len()
        invariant
            i <= places@.len(),
            names == keys_at(all_names@, places@),
            forall|k: int| 0 <= k < places@.len() ==> (#[trigger] places@[k]) < all_names@.len(),
            strings@ == string_table(names, i as int),
            offsets@.len() == i,
            forall|k: int| 0 <= k < i ==> #[trigger] offsets@[k] == name_offset(names, k),
        decreases places@.len() - i,
    {
        proof {
            lemma_name_offset(names, i as int, i as int);
        }
        if strings.len() as u64 > u32::MAX as u64 {
            assert(name_offset(names, i as int) > u32::MAX);
            return Err(ManifestError::StringTableTooLarge);
        }
        assert(places@[i as int] < all_names@.len());
        assert(names[i as int] == all_names@[places@[i as int] as int]@);
        offsets.push(strings.len() as u32);
        push_bytes(&mut strings, &all_names[places[i]]);
        strings.push(0);
        i = i + 1;
        assert(strings@ =~= string_table(names, i as int));
    }
    assert forall|k: int| 0 <= k < names.len() implies #[trigger] name_offset(names, k)
        <= u32::MAX by {
        assert(offsets@[k] == name_offset(names, k));
    }
    Ok((strings, offsets))
}

/// The entries, name by name.
fn make_entries(
    all_names: &Vec<Vec<u8>>,
    places: &Vec<usize>,
    offsets: &Vec<u32>,
    kept: &Vec<Vec<(u64, u32)>>,
    Ghost(symbols): Ghost<Seq<SymbolModel>>,
) -> (entries: Vec<ManifestEntry>)
    requires
        forall|k: int| 0 <= k < places@.len() ==> (#[trigger] places@[k]) < all_names@.len(),
        keys_at(all_names@, places@) == name_table(symbols),
        offsets@.len() == places@.len(),
        forall|k: int|
            0 <= k < places@.len() ==> #[trigger] offsets@[k] == name_offset(
                name_table(symbols),
                k,
            ),
        kept@.len() == places@.len(),
        forall|g: int|
            0 <= g < kept@.len() ==> (#[trigger] kept@[g])@ == kept_records(
                records_of(symbols, name_table(symbols)[g]),
            ),
    ensures
        entries@ == entries_of(symbols),
{
    let ghost names = name_table(symbols);
    let placed: Vec<PlacedRecord> = place_records(kept, Ghost(symbols), Ghost(names));
    let multi: Vec<bool> = find_multi_names(&placed);
    let ghost records = named_records(symbols, names, names.len() as int);
    let mut hashes: Vec<u64> = Vec::with_capacity(places.len());
    let mut i: usize = 0;
    while i < places.len()
        invariant
            i <= places@.len(),
            names == keys_at(all_names@, places@),
            forall|k: int| 0 <= k < places@.len() ==> (#[trigger] places@[k]) < all_names@.len(),
            hashes@.len() == i,
            forall|k: int| 0 <= k < i ==> #[trigger] hashes@[k] == fnv(names[k]),
        decreases places@.len() - i,
    {
        assert(places@[i as int] < all_names@.len());
        hashes.push(fnv1a64(&all_names[places[i]]));
        i = i + 1;
    }
    proof {
        lemma_named_records(symbols, names, names.len() as int);
    }
    let mut entries: Vec<ManifestEntry> = Vec::with_capacity(placed.len());
    i = 0;
    while i < placed.len()
        invariant
            i <= placed@.len(),
            names == name_table(symbols),
            names.len() == places@.len(),
            hashes@.len() == places@.len(),
            offsets@.len() == places@.len(),
            kept@.len() == places@.len(),
            multi@.len() == placed@.len(),
            records == placed_models(placed@),
            forall|k: int| 0 <= k < records.len() ==> 0 <= (#[trigger] records[k]).name
                < names.len(),
            forall|k: int| 0 <= k < hashes@.len() ==> #[trigger] hashes@[k] == fnv(names[k]),
            forall|k: int|
                0 <= k < offsets@.len() ==> #[trigger] offsets@[k] == name_offset(names, k),
            forall|g: int|
                0 <= g < kept@.len() ==> (#[trigger] kept@[g])@ == kept_records(
                    records_of(symbols, names[g]),
                ),
            forall|k: int|
                0 <= k < placed@.len() ==> #[trigger] multi@[k] == (names_at(
                    records,
                    placed@[k].rva,
                ) > 1),
            entries@.len() == i,
            forall|k: int|
                0 <= k < i ==> #[trigger] entries@[k] == entry_of(
                    symbols,
                    names,
                    records,
                    records[k],
                ),
        decreases placed@.len() - i,
    {
        let record: PlacedRecord = placed[i];
        let name: usize = record.name;
        assert(records[i as int].name == name);
        assert(kept@[name as int]@ == kept_records(records_of(symbols, names[name as int])));
        let mut flags: u32 = record.flags;
        if kept[name].len() > 1 {
            flags = flags | FLAG_DUP_NAME;
        }
        if multi[i] {
            flags = flags | FLAG_MULTI_NAME;
        }
        entries.push(
            ManifestEntry { hash: hashes[name], rva: record.rva, name_off: offsets[name], flags },
        );
        i = i + 1;
    }
    assert(entries@ =~= entries_of(symbols));
    entries
}

/// The names of placed records are names of the table.
pub proof fn lemma_named_records(symbols: Seq<SymbolModel>, names: Seq<Seq<u8>>, n: int)
    requires
        0 <= n <= names.len(),
    ensures
        forall|k: int|
            0 <= k < named_records(symbols, names, n).len() ==> 0 <= (#[trigger] named_records(
                symbols,
                names,
                n,
            )[k]).name < n,
    decreases n,
{
    if n > 0 {
        lemma_named_records(symbols, names, n - 1);
        let front = named_records(symbols, names, n - 1);
        let all = named_records(symbols, names, n);
        assert forall|k: int| 0 <= k < all.len() implies 0 <= (#[trigger] all[k]).name < n by {
            if k < front.len() {
                assert(all[k] == front[k]);
            }
        }
    }
}

/// Serialize an uncompressed manifest payload.
/// Returns the raw payload bytes and the deduplicated entry count.
pub fn build_manifest_payload(input: &ManifestInput) -> (r: Result<
    (Vec<u8>, usize),
    ManifestError,
>)
    ensures
        match r {
            Ok((payload, count)) => payload_of(symbol_models(input.symbols@)) == Ok::<
                (Seq<u8>, int),
                ManifestError,
            >((payload@, count as int)),
            Err(e) => payload_of(symbol_models(input.symbols@)) == Err::<
                (Seq<u8>, int),
                ManifestError,
            >(e),
        },
{
    let ghost symbols = symbol_models(input.symbols@);
    let all_names: Vec<Vec<u8>> = names_as_bytes(&input.symbols);
    let (places, ranks) = rank_items(&all_names);
    let ghost names = keys_at(all_names@, places@);
    assert(names == name_table(symbols));
    proof {
        assert(keys(all_names@).len() == symbols.len());
        assert forall|i: int, j: int| 0 <= i < j < names.len() implies names[i] != names[j] by {
            assert(<Vec<u8> as Ranked>::precedes(names[i], names[j]));
            <Vec<u8> as Ranked>::precedes_irreflexive(names[i]);
        }
        assert forall|i: int| 0 <= i < input.symbols@.len() implies (#[trigger] ranks@[i])
            < places@.len() && names[ranks@[i] as int] == input.symbols@[i]@.name by {
            assert(keys(all_names@)[i] == symbols[i].name);
            assert(ranks@[i] < places@.len());
        }
    }
    let records: Vec<Vec<(u64, u32)>> = gather_records(
        &input.symbols,
        &ranks,
        places.len(),
        Ghost(names),
    );
    let mut kept: Vec<Vec<(u64, u32)>> = Vec::with_capacity(records.len());
    let mut i: usize = 0;
    while i < records.len()
        invariant
            i <= records@.len(),
            kept@.len() == i,
            forall|g: int|
                0 <= g < i ==> (#[trigger] kept@[g])@ == kept_records(records@[g]@),
        decreases records@.len() - i,
    {
        kept.push(keep_records(&records[i]));
        i = i + 1;
    }
    let (strings, offsets) = make_strings(&all_names, &places)?;
    let entries: Vec<ManifestEntry> = make_entries(
        &all_names,
        &places,
        &offsets,
        &kept,
        Ghost(symbols),
    );
    let order: Vec<usize> = distinct_order(&entries);
    let ghost sorted = keys_at(entries@, order@);
    assert(keys(entries@) =~= entries@);
    let mut out: Vec<u8> = Vec::new();
    i = 0;
    while i < order.len()
        invariant
            i <= order@.len(),
            sorted == keys_at(entries@, order@),
            forall|k: int| 0 <= k < order@.len() ==> (#[trigger] order@[k]) < entries@.len(),
            out@ == entries_bytes(sorted.subrange(0, i as int)),
        decreases order@.len() - i,
    {
        assert(order@[i as int] < entries@.len());
        let ghost more = sorted.subrange(0, i + 1);
        assert(more.drop_last() =~= sorted.subrange(0, i as int));
        assert(more.last() == entries@[order@[i as int] as int]);
        push_entry(&mut out, &entries[order[i]]);
        i = i + 1;
    }
    assert(sorted.subrange(0, sorted.len() as int) =~= sorted);
    push_bytes(&mut out, &strings);
    Ok((out, order.len()))
}

} // verus!
