//! What a reader gets back from a manifest.

use vstd::prelude::*;
use vstd::utf8::*;
use crate::bytes::{
    c_string, group_field_len, le32, le64, lemma_first_zero, lemma_u32_at_le, lemma_u64_at_le,
};
use crate::order::{
    ascending, lemma_sorted_form_exists, same_keys, sorted_form, Ranked,
};
use super::embedded::{
    entries_valid, found_from, is_valid_payload, manifest_in, payload_entry, payload_name,
    LookupError, ManifestLookup,
};
use super::format::{
    compression_code, entry_bytes, fnv, lemma_entry_at, ManifestCompression, ManifestEntry,
    ManifestError, SymbolModel, FLAG_DISPLAY, FLAG_DUP_NAME, FLAG_LOCAL, MAGIC, VERSION,
};
use super::payload::{
    entries_bytes, entries_of, entry_flags, entry_of, has_real, has_rva, is_display, kept_records,
    lemma_name_offset, lemma_named_records, merged_flags, name_offset, name_table, named_records,
    names_at, payload_of, records_of, string_table, with_record, NamedRecord,
};
use super::write::{build_id_len, framed, manifest_of, stored_payload, zstd_decoded};

verus! {

/// Whether every name is text without a zero byte.
pub open spec fn names_are_text(symbols: Seq<SymbolModel>) -> bool {
    forall|i: int|
        0 <= i < symbols.len() ==> valid_utf8((#[trigger] symbols[i]).name)
            && !symbols[i].name.contains(0u8)
}

pub(crate) proof fn lemma_entries_bytes(entries: Seq<ManifestEntry>)
    ensures
        entries_bytes(entries).len() == 24 * entries.len(),
        forall|i: int|
            0 <= i < entries.len() ==> entries_bytes(entries).subrange(24 * i, 24 * i + 24)
                == entry_bytes(#[trigger] entries[i]),
    decreases entries.len(),
{
    broadcast use group_field_len;

    if entries.len() > 0 {
        let rest = entries.drop_last();
        lemma_entries_bytes(rest);
        let all = entries_bytes(entries);
        let front = entries_bytes(rest);
        assert(entry_bytes(entries.last()).len() == 24);
        assert forall|i: int| 0 <= i < entries.len() implies all.subrange(24 * i, 24 * i + 24)
            == entry_bytes(#[trigger] entries[i]) by {
            if i < rest.len() {
                assert(rest[i] == entries[i]);
                assert(all.subrange(24 * i, 24 * i + 24) =~= front.subrange(24 * i, 24 * i + 24));
            } else {
                assert(all.subrange(24 * i, 24 * i + 24) =~= entry_bytes(entries.last()));
            }
        }
    }
}

pub(crate) proof fn lemma_string_table(names: Seq<Seq<u8>>, i: int, n: int)
    requires
        0 <= i < n <= names.len(),
    ensures
        ({
            let at = name_offset(names, i);
            &&& 0 <= at
            &&& at + names[i].len() + 1 <= string_table(names, n).len()
            &&& string_table(names, n).subrange(at, at + names[i].len()) == names[i]
            &&& string_table(names, n)[at + names[i].len()] == 0
        }),
    decreases n,
{
    lemma_name_offset(names, i, n);
    lemma_name_offset(names, n - 1, n - 1);
    let at = name_offset(names, i);
    let all = string_table(names, n);
    let front = string_table(names, n - 1);
    if i < n - 1 {
        lemma_string_table(names, i, n - 1);
        assert(all.subrange(at, at + names[i].len()) =~= front.subrange(at, at + names[i].len()));
    } else {
        assert(all.subrange(at, at + names[i].len()) =~= names[i]);
    }
}

/// The names of the table are the names of the symbols, in order.
pub(crate) proof fn lemma_name_table(symbols: Seq<SymbolModel>)
    ensures
        ascending::<Vec<u8>>(name_table(symbols)),
        forall|name: Seq<u8>| #[trigger]
            name_table(symbols).contains(name) <==> exists|i: int|
                0 <= i < symbols.len() && (#[trigger] symbols[i]).name == name,
        forall|i: int, j: int|
            0 <= i < j < name_table(symbols).len() ==> name_table(symbols)[i] != name_table(
                symbols,
            )[j],
{
    let list = Seq::new(symbols.len(), |i: int| symbols[i].name);
    lemma_sorted_form_exists::<Vec<u8>>(list);
    let names = name_table(symbols);
    assert forall|name: Seq<u8>| #[trigger] names.contains(name) <==> exists|i: int|
        0 <= i < symbols.len() && (#[trigger] symbols[i]).name == name by {
        assert(names.contains(name) <==> list.contains(name));
        if list.contains(name) {
            let i = choose|i: int| 0 <= i < list.len() && list[i] == name;
            assert(symbols[i].name == name);
        }
        if exists|i: int| 0 <= i < symbols.len() && (#[trigger] symbols[i]).name == name {
            let i = choose|i: int| 0 <= i < symbols.len() && (#[trigger] symbols[i]).name == name;
            assert(list[i] == name);
        }
    }
    assert forall|i: int, j: int| 0 <= i < j < names.len() implies names[i] != names[j] by {
        assert(<Vec<u8> as Ranked>::precedes(names[i], names[j]));
        <Vec<u8> as Ranked>::precedes_irreflexive(names[i]);
    }
}

/// A record of the list is a kept record of its name.
pub(crate) proof fn lemma_record_is_kept(symbols: Seq<SymbolModel>, names: Seq<Seq<u8>>, n: int, k: int)
    requires
        0 <= n <= names.len(),
        0 <= k < named_records(symbols, names, n).len(),
    ensures
        ({
            let record = named_records(symbols, names, n)[k];
            0 <= record.name < n && exists|j: int|
                0 <= j < kept_records(records_of(symbols, names[record.name])).len()
                    && #[trigger] kept_records(records_of(symbols, names[record.name]))[j] == (
                    record.rva,
                    record.flags,
                )
        }),
    decreases n,
{
    let front = named_records(symbols, names, n - 1);
    let record = named_records(symbols, names, n)[k];
    if k < front.len() {
        assert(record == front[k]);
        lemma_record_is_kept(symbols, names, n - 1, k);
    } else {
        let kept = kept_records(records_of(symbols, names[n - 1]));
        assert(record.name == n - 1);
        assert(kept[k - front.len()] == (record.rva, record.flags));
    }
}

/// A kept record of a name is in the list.
pub(crate) proof fn lemma_kept_is_record(
    symbols: Seq<SymbolModel>,
    names: Seq<Seq<u8>>,
    n: int,
    g: int,
    j: int,
) -> (k: int)
    requires
        0 <= g < n <= names.len(),
        0 <= j < kept_records(records_of(symbols, names[g])).len(),
    ensures
        0 <= k < named_records(symbols, names, n).len(),
        named_records(symbols, names, n)[k] == (NamedRecord {
            name: g,
            rva: kept_records(records_of(symbols, names[g]))[j].0,
            flags: kept_records(records_of(symbols, names[g]))[j].1,
        }),
    decreases n,
{
    if g < n - 1 {
        let k = lemma_kept_is_record(symbols, names, n - 1, g, j);
        assert(named_records(symbols, names, n)[k] == named_records(symbols, names, n - 1)[k]);
        k
    } else {
        named_records(symbols, names, n - 1).len() + j
    }
}

/// A name that a symbol has keeps at least one record.
proof fn lemma_kept_not_empty(symbols: Seq<SymbolModel>, name: Seq<u8>)
    requires
        exists|i: int| 0 <= i < symbols.len() && (#[trigger] symbols[i]).name == name,
    ensures
        kept_records(records_of(symbols, name)).len() > 0,
{
    lemma_records_not_empty(symbols, name);
    let records = records_of(symbols, name);
    if has_real(records) {
        let i = choose|i: int| 0 <= i < records.len() && !is_display((#[trigger] records[i]).1);
        let pred = |r: (u64, u32)| !is_display(r.1);
        records.filter_lemma(pred);
        assert(pred(records[i]));
        assert(records.filter(pred).contains(records[i]));
    }
}

proof fn lemma_records_not_empty(symbols: Seq<SymbolModel>, name: Seq<u8>)
    requires
        exists|i: int| 0 <= i < symbols.len() && (#[trigger] symbols[i]).name == name,
    ensures
        records_of(symbols, name).len() > 0,
    decreases symbols.len(),
{
    if symbols.last().name != name {
        let rest = symbols.drop_last();
        let i = choose|i: int| 0 <= i < symbols.len() && (#[trigger] symbols[i]).name == name;
        assert(rest[i].name == name);
        lemma_records_not_empty(rest, name);
    } else {
        let rest = records_of(symbols.drop_last(), name);
        assert(with_record(rest, symbols.last().rva, symbols.last().flags).len() >= 1) by {
            if super::payload::has_rva(rest, symbols.last().rva) {
                let i = choose|i: int|
                    0 <= i < rest.len() && (#[trigger] rest[i]).0 == symbols.last().rva;
                assert(0 <= i < rest.len());
            }
        }
    }
}

/// What the payload holds: its entries in order, and the name of each of them.
pub(crate) proof fn lemma_payload(symbols: Seq<SymbolModel>)
    requires
        names_are_text(symbols),
        payload_of(symbols).is_ok(),
    ensures
        ({
            let (payload, count) = payload_of(symbols)->Ok_0;
            let names = name_table(symbols);
            let records = named_records(symbols, names, names.len() as int);
            let sorted = sorted_form::<ManifestEntry>(entries_of(symbols));
            &&& count == sorted.len()
            &&& 24 * count <= payload.len()
            &&& ascending::<ManifestEntry>(sorted)
            &&& same_keys(sorted, entries_of(symbols))
            &&& forall|i: int|
                0 <= i < count ==> #[trigger] payload_entry(payload, i) == sorted[i]
            &&& forall|k: int|
                0 <= k < records.len() ==> payload_name(
                    payload,
                    count,
                    (#[trigger] entry_of(symbols, names, records, records[k])).name_off,
                ) == Ok::<Seq<u8>, ManifestError>(names[records[k].name])
        }),
{
    let (payload, count) = payload_of(symbols)->Ok_0;
    let names = name_table(symbols);
    let n = names.len() as int;
    let records = named_records(symbols, names, n);
    let sorted = sorted_form::<ManifestEntry>(entries_of(symbols));
    let table = string_table(names, n);
    lemma_sorted_form_exists::<ManifestEntry>(entries_of(symbols));
    lemma_entries_bytes(sorted);
    lemma_name_table(symbols);
    assert forall|i: int| 0 <= i < count implies #[trigger] payload_entry(payload, i)
        == sorted[i] by {
        assert(payload.subrange(24 * i, 24 * i + 24) =~= entries_bytes(sorted).subrange(
            24 * i,
            24 * i + 24,
        ));
        lemma_entry_at(payload, 24 * i, sorted[i]);
    }
    lemma_named_records(symbols, names, n);
    assert forall|k: int| 0 <= k < records.len() implies payload_name(
        payload,
        count,
        (#[trigger] entry_of(symbols, names, records, records[k])).name_off,
    ) == Ok::<Seq<u8>, ManifestError>(names[records[k].name]) by {
        let g = records[k].name;
        let name = names[g];
        let at = name_offset(names, g);
        lemma_string_table(names, g, n);
        assert(at <= u32::MAX);
        let start = 24 * count + at;
        let rest = payload.subrange(start, payload.len() as int);
        assert(names.contains(name));
        let s = choose|s: int| 0 <= s < symbols.len() && (#[trigger] symbols[s]).name == name;
        assert(symbols[s].name == name);
        assert forall|j: int| 0 <= j < name.len() implies rest[j] == name[j] && rest[j] != 0 by {
            assert(table.subrange(at, at + name.len())[j] == table[at + j]);
            assert(rest[j] == table[at + j]);
            assert(name.contains(name[j]));
        }
        assert(rest[name.len() as int] == table[at + name.len()]);
        lemma_first_zero(rest, name.len() as int);
        assert(rest.subrange(0, name.len() as int) =~= name);
        assert(c_string(rest) == Some(name));
    }
}

/// An entry of the payload comes from a record.
pub(crate) proof fn lemma_entry_record(symbols: Seq<SymbolModel>, i: int) -> (k: int)
    requires
        names_are_text(symbols),
        payload_of(symbols).is_ok(),
        0 <= i < payload_of(symbols)->Ok_0.1,
    ensures
        ({
            let names = name_table(symbols);
            let records = named_records(symbols, names, names.len() as int);
            0 <= k < records.len() && payload_entry(payload_of(symbols)->Ok_0.0, i) == entry_of(
                symbols,
                names,
                records,
                records[k],
            )
        }),
{
    lemma_payload(symbols);
    let sorted = sorted_form::<ManifestEntry>(entries_of(symbols));
    let entries = entries_of(symbols);
    assert(sorted.contains(sorted[i]));
    assert(entries.contains(sorted[i]));
    choose|k: int| 0 <= k < entries.len() && entries[k] == sorted[i]
}

proof fn lemma_found_none(payload: Seq<u8>, count: int, name: Seq<u8>, from: int)
    requires
        0 <= from,
        forall|i: int|
            from <= i < count ==> payload_name(
                payload,
                count,
                (#[trigger] payload_entry(payload, i)).name_off,
            ) != Ok::<Seq<u8>, ManifestError>(name),
    ensures
        found_from(payload, count, name, from) == Err::<ManifestLookup, LookupError>(
            LookupError::NotFound,
        ),
    decreases count - from,
{
    if from < count {
        assert(payload_name(payload, count, payload_entry(payload, from).name_off) != Ok::<
            Seq<u8>,
            ManifestError,
        >(name));
        lemma_found_none(payload, count, name, from + 1);
    }
}

/// What looking up an entry gives.
pub open spec fn lookup_result(rva: u64, flags: u32) -> Result<ManifestLookup, LookupError> {
    if flags & FLAG_DUP_NAME != 0 {
        Err(LookupError::Ambiguous)
    } else {
        Ok(ManifestLookup { vmaddr: rva, flags })
    }
}

proof fn lemma_found_some(
    payload: Seq<u8>,
    count: int,
    name: Seq<u8>,
    from: int,
    at: int,
    result: Result<ManifestLookup, LookupError>,
)
    requires
        0 <= from <= at < count,
        payload_entry(payload, at).hash == fnv(name),
        payload_name(payload, count, payload_entry(payload, at).name_off) == Ok::<
            Seq<u8>,
            ManifestError,
        >(name),
        forall|i: int|
            from <= i < count && payload_name(
                payload,
                count,
                (#[trigger] payload_entry(payload, i)).name_off,
            ) == Ok::<Seq<u8>, ManifestError>(name) ==> lookup_result(
                payload_entry(payload, i).rva,
                payload_entry(payload, i).flags,
            ) == result,
    ensures
        found_from(payload, count, name, from) == result,
    decreases count - from,
{
    if from < at {
        let entry = payload_entry(payload, from);
        if !(entry.hash == fnv(name) && payload_name(payload, count, entry.name_off) == Ok::<
            Seq<u8>,
            ManifestError,
        >(name)) {
            lemma_found_some(payload, count, name, from + 1, at, result);
        }
    }
}

/// A name that no symbol has is not found.
pub proof fn law_unknown_name_is_not_found(symbols: Seq<SymbolModel>, name: Seq<u8>)
    requires
        names_are_text(symbols),
        payload_of(symbols).is_ok(),
        forall|i: int| 0 <= i < symbols.len() ==> (#[trigger] symbols[i]).name != name,
    ensures
        ({
            let (payload, count) = payload_of(symbols)->Ok_0;
            found_from(payload, count, name, 0) == Err::<ManifestLookup, LookupError>(
                LookupError::NotFound,
            )
        }),
{
    let (payload, count) = payload_of(symbols)->Ok_0;
    let names = name_table(symbols);
    lemma_payload(symbols);
    lemma_name_table(symbols);
    lemma_named_records(symbols, names, names.len() as int);
    assert forall|i: int| 0 <= i < count implies payload_name(
        payload,
        count,
        (#[trigger] payload_entry(payload, i)).name_off,
    ) != Ok::<Seq<u8>, ManifestError>(name) by {
        let k = lemma_entry_record(symbols, i);
        let records = named_records(symbols, names, names.len() as int);
        assert(names.contains(names[records[k].name]));
    }
    lemma_found_none(payload, count, name, 0);
}

/// The entry that looking up a name ends at.
proof fn lemma_known_name(
    symbols: Seq<SymbolModel>,
    name: Seq<u8>,
    result: Result<ManifestLookup, LookupError>,
)
    requires
        names_are_text(symbols),
        payload_of(symbols).is_ok(),
        exists|i: int| 0 <= i < symbols.len() && (#[trigger] symbols[i]).name == name,
        ({
            let names = name_table(symbols);
            let records = named_records(symbols, names, names.len() as int);
            let kept = kept_records(records_of(symbols, name));
            forall|j: int|
                0 <= j < kept.len() ==> lookup_result(
                    (#[trigger] kept[j]).0,
                    entry_flags(kept[j].1, kept.len() > 1, names_at(records, kept[j].0) > 1),
                ) == result
        }),
    ensures
        ({
            let (payload, count) = payload_of(symbols)->Ok_0;
            found_from(payload, count, name, 0) == result
        }),
{
    let (payload, count) = payload_of(symbols)->Ok_0;
    let names = name_table(symbols);
    let n = names.len() as int;
    let records = named_records(symbols, names, n);
    let entries = entries_of(symbols);
    let sorted = sorted_form::<ManifestEntry>(entries);
    let kept = kept_records(records_of(symbols, name));
    lemma_payload(symbols);
    lemma_name_table(symbols);
    lemma_named_records(symbols, names, n);
    lemma_kept_not_empty(symbols, name);
    assert(names.contains(name));
    let g = choose|g: int| 0 <= g < names.len() && names[g] == name;
    let k0 = lemma_kept_is_record(symbols, names, n, g, 0);
    assert(entries[k0] == entry_of(symbols, names, records, records[k0]));
    assert(entries.contains(entries[k0]));
    assert(sorted.contains(entries[k0]));
    let at = choose|at: int| 0 <= at < sorted.len() && sorted[at] == entries[k0];
    assert(payload_entry(payload, at) == entries[k0]);
    assert forall|i: int|
        0 <= i < count && payload_name(
            payload,
            count,
            (#[trigger] payload_entry(payload, i)).name_off,
        ) == Ok::<Seq<u8>, ManifestError>(name) implies lookup_result(
        payload_entry(payload, i).rva,
        payload_entry(payload, i).flags,
    ) == result by {
        let k = lemma_entry_record(symbols, i);
        assert(names[records[k].name] == name);
        lemma_record_is_kept(symbols, names, n, k);
        let j = choose|j: int|
            0 <= j < kept.len() && #[trigger] kept[j] == (records[k].rva, records[k].flags);
        assert(kept[j].0 == records[k].rva);
    }
    lemma_found_some(payload, count, name, 0, at, result);
}

/// A name with one address is found there.
///
/// The exception is a symbol that came in with the duplicate-name flag already set: it stays
/// ambiguous.
pub proof fn law_single_name_is_found(symbols: Seq<SymbolModel>, name: Seq<u8>)
    requires
        names_are_text(symbols),
        payload_of(symbols).is_ok(),
        exists|i: int| 0 <= i < symbols.len() && (#[trigger] symbols[i]).name == name,
        kept_records(records_of(symbols, name)).len() == 1,
        kept_records(records_of(symbols, name))[0].1 & FLAG_DUP_NAME == 0,
    ensures
        ({
            let (payload, count) = payload_of(symbols)->Ok_0;
            let names = name_table(symbols);
            let records = named_records(symbols, names, names.len() as int);
            let (rva, flags) = kept_records(records_of(symbols, name))[0];
            found_from(payload, count, name, 0) == Ok::<ManifestLookup, LookupError>(
                ManifestLookup {
                    vmaddr: rva,
                    flags: entry_flags(flags, false, names_at(records, rva) > 1),
                },
            )
        }),
{
    let names = name_table(symbols);
    let records = named_records(symbols, names, names.len() as int);
    let (rva, flags) = kept_records(records_of(symbols, name))[0];
    assert((flags | 8) & 16 == flags & 16) by (bit_vector);
    lemma_known_name(
        symbols,
        name,
        lookup_result(rva, entry_flags(flags, false, names_at(records, rva) > 1)),
    );
}

/// A name with several addresses is ambiguous.
pub proof fn law_duplicate_name_is_ambiguous(symbols: Seq<SymbolModel>, name: Seq<u8>)
    requires
        names_are_text(symbols),
        payload_of(symbols).is_ok(),
        kept_records(records_of(symbols, name)).len() > 1,
    ensures
        ({
            let (payload, count) = payload_of(symbols)->Ok_0;
            found_from(payload, count, name, 0) == Err::<ManifestLookup, LookupError>(
                LookupError::Ambiguous,
            )
        }),
{
    let names = name_table(symbols);
    let records = named_records(symbols, names, names.len() as int);
    let kept = kept_records(records_of(symbols, name));
    lemma_record_has_symbol(symbols, name);
    assert forall|j: int| 0 <= j < kept.len() implies lookup_result(
        (#[trigger] kept[j]).0,
        entry_flags(kept[j].1, kept.len() > 1, names_at(records, kept[j].0) > 1),
    ) == Err::<ManifestLookup, LookupError>(LookupError::Ambiguous) by {
        let flags = kept[j].1;
        assert((flags | 16) & 16 != 0) by (bit_vector);
        assert(((flags | 16) | 8) & 16 != 0) by (bit_vector);
    }
    lemma_known_name(
        symbols,
        name,
        Err::<ManifestLookup, LookupError>(LookupError::Ambiguous),
    );
}

/// A name with records is the name of a symbol.
proof fn lemma_record_has_symbol(symbols: Seq<SymbolModel>, name: Seq<u8>)
    requires
        kept_records(records_of(symbols, name)).len() > 0,
    ensures
        exists|i: int| 0 <= i < symbols.len() && (#[trigger] symbols[i]).name == name,
{
    let records = records_of(symbols, name);
    if records.len() == 0 {
        let pred = |r: (u64, u32)| !is_display(r.1);
        reveal(Seq::filter);
        assert(records.filter(pred).len() == 0);
    }
    lemma_records_have_symbol(symbols, name);
}

proof fn lemma_records_have_symbol(symbols: Seq<SymbolModel>, name: Seq<u8>)
    requires
        records_of(symbols, name).len() > 0,
    ensures
        exists|i: int| 0 <= i < symbols.len() && (#[trigger] symbols[i]).name == name,
    decreases symbols.len(),
{
    if symbols.last().name == name {
        assert(symbols[symbols.len() - 1].name == name);
    } else {
        let rest = symbols.drop_last();
        lemma_records_have_symbol(rest, name);
        let i = choose|i: int| 0 <= i < rest.len() && (#[trigger] rest[i]).name == name;
        assert(symbols[i].name == name);
    }
}

/// The entries of a payload are sorted by hash and name offset, and each has a name.
pub proof fn law_payload_is_valid(symbols: Seq<SymbolModel>)
    requires
        names_are_text(symbols),
        payload_of(symbols).is_ok(),
    ensures
        ({
            let (payload, count) = payload_of(symbols)->Ok_0;
            &&& entries_valid(payload, count, 0) == Ok::<(), ManifestError>(())
            &&& is_valid_payload(payload, count)
        }),
{
    let (payload, count) = payload_of(symbols)->Ok_0;
    lemma_payload(symbols);
    lemma_valid_from(symbols, 0);
    super::embedded::lemma_entries_valid(payload, count, 0);
}

proof fn lemma_valid_from(symbols: Seq<SymbolModel>, from: int)
    requires
        names_are_text(symbols),
        payload_of(symbols).is_ok(),
        0 <= from,
    ensures
        ({
            let (payload, count) = payload_of(symbols)->Ok_0;
            entries_valid(payload, count, from) == Ok::<(), ManifestError>(())
        }),
    decreases payload_of(symbols)->Ok_0.1 - from,
{
    let (payload, count) = payload_of(symbols)->Ok_0;
    lemma_payload(symbols);
    if from < count {
        let sorted = sorted_form::<ManifestEntry>(entries_of(symbols));
        if from > 0 {
            assert(<ManifestEntry as Ranked>::precedes(sorted[from - 1], sorted[from]));
            assert(payload_entry(payload, from - 1) == sorted[from - 1]);
        }
        assert(payload_entry(payload, from) == sorted[from]);
        let k = lemma_entry_record(symbols, from);
        lemma_valid_from(symbols, from + 1);
    }
}

/// A manifest that was written for a 16-byte build id is read back for that id: its reader gets the
/// payload and the entry count that were written.
pub proof fn law_written_manifest_is_read(
    build_id: Seq<u8>,
    symbols: Seq<SymbolModel>,
    compression: ManifestCompression,
)
    requires
        build_id.len() == 16,
        names_are_text(symbols),
        manifest_of(build_id, symbols, compression).is_ok(),
        // Decompressing gives back what was compressed, and everything can be held in memory.
        ({
            let (payload, count) = payload_of(symbols)->Ok_0;
            let stored = stored_payload(payload, compression)->0;
            &&& compression == ManifestCompression::Zstd ==> zstd_decoded(stored) == Some(payload)
            &&& payload.len() <= usize::MAX
            &&& stored.len() <= usize::MAX
        }),
    ensures
        manifest_in(manifest_of(build_id, symbols, compression)->Ok_0.0, build_id) == payload_of(
            symbols,
        ),
{
    broadcast use group_field_len;

    let (payload, count) = payload_of(symbols)->Ok_0;
    let stored = stored_payload(payload, compression)->0;
    let blob = framed(build_id, compression, payload.len() as int, stored, count);
    law_payload_is_valid(symbols);
    let code = compression_code(compression);
    assert(blob.subrange(0, 8) =~= MAGIC@);
    assert(blob.subrange(8, 12) =~= le32(VERSION));
    lemma_u32_at_le(blob, 8, VERSION);
    assert(blob.subrange(12, 16) =~= le32(code));
    lemma_u32_at_le(blob, 12, code);
    assert(blob.subrange(16, 24) =~= le64(payload.len() as u64));
    lemma_u64_at_le(blob, 16, payload.len() as u64);
    assert(blob.subrange(24, 32) =~= le64(stored.len() as u64));
    lemma_u64_at_le(blob, 24, stored.len() as u64);
    assert(blob.subrange(32, 36) =~= le32(16));
    lemma_u32_at_le(blob, 32, 16);
    assert(blob.subrange(36, 52) =~= build_id);
    assert(blob.subrange(68, 72) =~= le32(count as u32));
    lemma_u32_at_le(blob, 68, count as u32);
    assert(blob.subrange(72, 72 + stored.len() as int) =~= stored);
}

/// A manifest is not loaded for another binary: what was written for one build id is refused for an
/// image with another UUID.
pub proof fn law_stale_manifest_is_refused(
    build_id: Seq<u8>,
    symbols: Seq<SymbolModel>,
    compression: ManifestCompression,
    uuid: Seq<u8>,
)
    requires
        uuid.len() == 16,
        build_id != uuid,
        manifest_of(build_id, symbols, compression).is_ok(),
    ensures
        manifest_in(manifest_of(build_id, symbols, compression)->Ok_0.0, uuid) == Err::<
            (Seq<u8>, int),
            ManifestError,
        >(ManifestError::UuidMismatch),
{
    broadcast use group_field_len;

    let (payload, count) = payload_of(symbols)->Ok_0;
    let stored = stored_payload(payload, compression)->0;
    let blob = framed(build_id, compression, payload.len() as int, stored, count);
    let len = build_id_len(build_id) as u32;
    assert(blob.subrange(0, 8) =~= MAGIC@);
    assert(blob.subrange(8, 12) =~= le32(VERSION));
    lemma_u32_at_le(blob, 8, VERSION);
    assert(blob.subrange(32, 36) =~= le32(len));
    lemma_u32_at_le(blob, 32, len);
    if len == 16 {
        assert(blob.subrange(36, 52) =~= build_id);
    }
}

/// Whether every symbol of the name at the address has the marker.
pub open spec fn all_marked(symbols: Seq<SymbolModel>, name: Seq<u8>, rva: u64, marker: u32) -> bool {
    forall|i: int|
        0 <= i < symbols.len() && (#[trigger] symbols[i]).name == name && symbols[i].rva == rva
            ==> symbols[i].flags & marker != 0
}

/// A name has a record at exactly those addresses at which it has a symbol.
pub(crate) proof fn lemma_has_rva(symbols: Seq<SymbolModel>, name: Seq<u8>, rva: u64)
    ensures
        has_rva(records_of(symbols, name), rva) == exists|i: int|
            0 <= i < symbols.len() && (#[trigger] symbols[i]).name == name && symbols[i].rva == rva,
    decreases symbols.len(),
{
    if symbols.len() > 0 {
        let rest = symbols.drop_last();
        let last = symbols.last();
        let before = records_of(rest, name);
        let after = records_of(symbols, name);
        lemma_has_rva(rest, name, rva);
        if has_rva(before, rva) {
            let i = choose|i: int|
                0 <= i < rest.len() && (#[trigger] rest[i]).name == name && rest[i].rva == rva;
            assert(symbols[i].name == name && symbols[i].rva == rva);
            let k = choose|k: int| 0 <= k < before.len() && (#[trigger] before[k]).0 == rva;
            assert(after[k].0 == rva);
        } else if last.name == name && last.rva == rva {
            assert(after[before.len() as int].0 == rva);
            assert(symbols[symbols.len() - 1] == last);
        } else {
            if has_rva(after, rva) {
                let k = choose|k: int| 0 <= k < after.len() && (#[trigger] after[k]).0 == rva;
                assert(before[k].0 == rva);
            }
            assert forall|i: int|
                0 <= i < symbols.len() && (#[trigger] symbols[i]).name == name implies symbols[i].rva
                != rva by {
                if i < rest.len() {
                    assert(rest[i].name == name);
                }
            }
        }
    }
}

proof fn lemma_merged_markers(a: u32, b: u32)
    ensures
        (merged_flags(a, b) & FLAG_LOCAL != 0) == (a & FLAG_LOCAL != 0 && b & FLAG_LOCAL != 0),
        (merged_flags(a, b) & FLAG_DISPLAY != 0) == (a & FLAG_DISPLAY != 0 && b & FLAG_DISPLAY
            != 0),
{
    assert((merged_flags(a, b) & FLAG_LOCAL != 0) == (a & FLAG_LOCAL != 0 && b & FLAG_LOCAL != 0))
        by (bit_vector);
    assert((merged_flags(a, b) & FLAG_DISPLAY != 0) == (a & FLAG_DISPLAY != 0 && b & FLAG_DISPLAY
        != 0)) by (bit_vector);
}

/// A name is local at an address, or a display alias there, exactly where every symbol of that name
/// at that address is: a public symbol or a real one clears the marker.
pub proof fn law_markers_need_every_symbol(symbols: Seq<SymbolModel>, name: Seq<u8>, k: int)
    requires
        0 <= k < records_of(symbols, name).len(),
    ensures
        ({
            let (rva, flags) = records_of(symbols, name)[k];
            &&& (flags & FLAG_LOCAL != 0) == all_marked(symbols, name, rva, FLAG_LOCAL)
            &&& (flags & FLAG_DISPLAY != 0) == all_marked(symbols, name, rva, FLAG_DISPLAY)
        }),
    decreases symbols.len(),
{
    let rest = symbols.drop_last();
    let last = symbols.last();
    let before = records_of(rest, name);
    let rva = records_of(symbols, name)[k].0;
    assert(forall|marker: u32|
        all_marked(symbols, name, rva, marker) == (#[trigger] all_marked(rest, name, rva, marker) && (
        last.name == name && last.rva == rva ==> last.flags & marker != 0))) by {
        assert forall|marker: u32|
            all_marked(symbols, name, rva, marker) == (#[trigger] all_marked(
                rest,
                name,
                rva,
                marker,
            ) && (last.name == name && last.rva == rva ==> last.flags & marker != 0)) by {
            assert(symbols[symbols.len() - 1] == last);
            if all_marked(symbols, name, rva, marker) {
                assert forall|i: int|
                    0 <= i < rest.len() && (#[trigger] rest[i]).name == name && rest[i].rva
                        == rva implies rest[i].flags & marker != 0 by {
                    assert(symbols[i].name == name);
                }
            }
            if all_marked(rest, name, rva, marker) && (last.name == name && last.rva == rva
                ==> last.flags & marker != 0) {
                assert forall|i: int|
                    0 <= i < symbols.len() && (#[trigger] symbols[i]).name == name
                        && symbols[i].rva == rva implies symbols[i].flags & marker != 0 by {
                    if i < rest.len() {
                        assert(rest[i].name == name);
                    }
                }
            }
        }
    }
    if k < before.len() {
        law_markers_need_every_symbol(rest, name, k);
        lemma_merged_markers(before[k].1, last.flags);
    } else {
        lemma_has_rva(rest, name, rva);
        assert(all_marked(rest, name, rva, FLAG_LOCAL));
        assert(all_marked(rest, name, rva, FLAG_DISPLAY));
    }
}

/// A real name wins over display aliases that are spelled like it: of such a name every address of a
/// real symbol is kept, and no display alias.
pub proof fn law_real_name_wins(symbols: Seq<SymbolModel>, name: Seq<u8>, i: int)
    requires
        0 <= i < symbols.len(),
        symbols[i].name == name,
        !is_display(symbols[i].flags),
    ensures
        has_rva(kept_records(records_of(symbols, name)), symbols[i].rva),
        forall|k: int|
            0 <= k < kept_records(records_of(symbols, name)).len() ==> !is_display(
                (#[trigger] kept_records(records_of(symbols, name))[k]).1,
            ),
{
    let records = records_of(symbols, name);
    let rva = symbols[i].rva;
    let real_one = |r: (u64, u32)| !is_display(r.1);
    lemma_has_rva(symbols, name, rva);
    let k = choose|k: int| 0 <= k < records.len() && (#[trigger] records[k]).0 == rva;
    law_markers_need_every_symbol(symbols, name, k);
    assert(!all_marked(symbols, name, rva, FLAG_DISPLAY));
    assert(!is_display(records[k].1));
    records.filter_lemma(real_one);
    let kept = records.filter(real_one);
    assert(kept_records(records) == kept);
    assert(kept.contains(records[k]));
    let at = choose|at: int| 0 <= at < kept.len() && kept[at] == records[k];
    assert(kept[at].0 == rva);
}

} // verus!
