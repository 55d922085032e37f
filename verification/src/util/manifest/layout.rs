//! What the bytes of a manifest are: its header, its entries and its string table.

use vstd::prelude::*;
use crate::bytes::{group_field_len, le32, le64, lemma_u32_at_le, lemma_u64_at_le, u32_at, u64_at};
use crate::order::{sorted_form, Ranked};
use super::embedded::payload_entry;
use super::format::{fnv, ManifestCompression, ManifestEntry, SymbolModel};
use super::laws::{
    all_marked, lemma_entry_record, lemma_has_rva, lemma_name_table, lemma_payload,
    lemma_string_table, law_markers_need_every_symbol, names_are_text,
};
use super::payload::{
    entries_of, entry_flags, entry_of, has_real, has_rva, is_display, kept_records,
    lemma_name_offset, merged_flags, name_offset, name_table, named_records, names_at, payload_of,
    records_of, NamedRecord,
};
use super::permutation::{
    is_kept, lemma_filtered, lemma_kept_distinct, lemma_listed, lemma_listed_once, lemma_records,
};
use super::write::{framed, manifest_of, stored_payload};

verus! {

/// A manifest begins with `SYMGEN` and two zero bytes, version 2, 0 for a plain and 1 for a compressed
/// payload, the lengths of the payload without and with compression, how many bytes the build id has,
/// the build id in 32 bytes, and the number of entries. The stored payload follows.
pub proof fn law_header_layout(
    build_id: Seq<u8>,
    symbols: Seq<SymbolModel>,
    compression: ManifestCompression,
)
    requires
        manifest_of(build_id, symbols, compression).is_ok(),
        payload_of(symbols)->Ok_0.0.len() <= u64::MAX,
        manifest_of(build_id, symbols, compression)->Ok_0.0.len() <= u64::MAX,
    ensures
        ({
            let (blob, count) = manifest_of(build_id, symbols, compression)->Ok_0;
            let payload = payload_of(symbols)->Ok_0.0;
            &&& blob.len() >= 72
            &&& blob.subrange(0, 8) == seq![0x53u8, 0x59, 0x4d, 0x47, 0x45, 0x4e, 0, 0]
            &&& u32_at(blob, 8) == 2
            &&& u32_at(blob, 12) == if compression == ManifestCompression::Zstd {
                1int
            } else {
                0
            }
            &&& u64_at(blob, 16) == payload.len()
            &&& u64_at(blob, 24) == blob.len() - 72
            &&& u32_at(blob, 32) == if build_id.len() < 32 {
                build_id.len() as int
            } else {
                32
            }
            &&& forall|i: int|
                0 <= i < 32 ==> #[trigger] blob[36 + i] == if i < build_id.len() {
                    build_id[i]
                } else {
                    0
                }
            &&& u32_at(blob, 68) == count
            &&& compression == ManifestCompression::Uncompressed ==> blob.subrange(
                72,
                blob.len() as int,
            ) == payload
        }),
{
    broadcast use group_field_len;

    let (payload, count) = payload_of(symbols)->Ok_0;
    let stored = stored_payload(payload, compression)->0;
    let blob = framed(build_id, compression, payload.len() as int, stored, count);
    let code: u32 = if compression == ManifestCompression::Zstd {
        1
    } else {
        0
    };
    let len: u32 = if build_id.len() < 32 {
        build_id.len() as u32
    } else {
        32
    };
    assert(blob.len() == 72 + stored.len());
    assert(blob.subrange(0, 8) =~= seq![0x53u8, 0x59, 0x4d, 0x47, 0x45, 0x4e, 0, 0]);
    assert(blob.subrange(8, 12) =~= le32(2));
    lemma_u32_at_le(blob, 8, 2);
    assert(blob.subrange(12, 16) =~= le32(code));
    lemma_u32_at_le(blob, 12, code);
    assert(blob.subrange(16, 24) =~= le64(payload.len() as u64));
    lemma_u64_at_le(blob, 16, payload.len() as u64);
    assert(blob.subrange(24, 32) =~= le64(stored.len() as u64));
    lemma_u64_at_le(blob, 24, stored.len() as u64);
    assert(blob.subrange(32, 36) =~= le32(len));
    lemma_u32_at_le(blob, 32, len);
    assert(blob.subrange(68, 72) =~= le32(count as u32));
    lemma_u32_at_le(blob, 68, count as u32);
    assert(blob.subrange(72, blob.len() as int) =~= stored);
}

/// The hash of a name is the FNV-1a hash of 64 bits: it begins with the offset basis, and each byte is
/// mixed in before the product with the prime is taken.
pub proof fn law_hash_is_fnv1a(bytes: Seq<u8>, byte: u8)
    ensures
        fnv(Seq::empty()) == 14695981039346656037u64,
        fnv(bytes.push(byte)) == ((fnv(bytes) ^ byte as u64) * 1099511628211)
            % 0x1_0000_0000_0000_0000,
{
    assert(bytes.push(byte).drop_last() =~= bytes);
}

/// The hash, the address, the offset of the name and the flags of an entry: 24 bytes in all.
pub open spec fn hash_at(payload: Seq<u8>, i: int) -> u64 {
    u64_at(payload, 24 * i)
}

pub open spec fn rva_at(payload: Seq<u8>, i: int) -> u64 {
    u64_at(payload, 24 * i + 8)
}

pub open spec fn name_off_at(payload: Seq<u8>, i: int) -> u32 {
    u32_at(payload, 24 * i + 16)
}

pub open spec fn flags_at(payload: Seq<u8>, i: int) -> u32 {
    u32_at(payload, 24 * i + 20)
}

/// Whether an entry has a name: it stands in the string table, behind the entries, ended by a zero byte.
pub open spec fn is_named(payload: Seq<u8>, count: int, i: int, name: Seq<u8>) -> bool {
    let at = 24 * count + name_off_at(payload, i);
    &&& at + name.len() < payload.len()
    &&& payload.subrange(at, at + name.len()) == name
    &&& payload[at + name.len()] == 0
}

/// Whether a symbol is one of a name at an address.
pub open spec fn is_at(symbol: SymbolModel, name: Seq<u8>, rva: u64) -> bool {
    symbol.name == name && symbol.rva == rva
}

/// Whether one of the symbols of a name at an address has a flag.
pub open spec fn any_marked(symbols: Seq<SymbolModel>, name: Seq<u8>, rva: u64, flag: u32) -> bool {
    exists|i: int|
        0 <= i < symbols.len() && #[trigger] is_at(symbols[i], name, rva) && symbols[i].flags & flag
            != 0
}

/// The record of an entry.
pub open spec fn record_at(symbols: Seq<SymbolModel>, i: int, k: int) -> bool {
    let names = name_table(symbols);
    let records = named_records(symbols, names, names.len() as int);
    let (payload, count) = payload_of(symbols)->Ok_0;
    &&& 0 <= k < records.len()
    &&& 0 <= i < count
    &&& payload_entry(payload, i) == entry_of(symbols, names, records, records[k])
}

spec fn all_records(symbols: Seq<SymbolModel>) -> Seq<NamedRecord> {
    named_records(symbols, name_table(symbols), name_table(symbols).len() as int)
}

/// What is known of the record of an entry.
proof fn lemma_record(symbols: Seq<SymbolModel>, i: int, k: int)
    requires
        names_are_text(symbols),
        payload_of(symbols).is_ok(),
        record_at(symbols, i, k),
    ensures
        ({
            let names = name_table(symbols);
            let record = all_records(symbols)[k];
            let (payload, count) = payload_of(symbols)->Ok_0;
            &&& 0 <= record.name < names.len()
            &&& is_kept(symbols, names, names.len() as int, record)
            &&& rva_at(payload, i) == record.rva
            &&& hash_at(payload, i) == fnv(names[record.name])
            &&& name_off_at(payload, i) == name_offset(names, record.name)
            &&& flags_at(payload, i) == entry_flags(
                record.flags,
                kept_records(records_of(symbols, names[record.name])).len() > 1,
                names_at(all_records(symbols), record.rva) > 1,
            )
            &&& is_named(payload, count, i, names[record.name])
        }),
{
    let names = name_table(symbols);
    let n = names.len() as int;
    let records = all_records(symbols);
    let record = records[k];
    let (payload, count) = payload_of(symbols)->Ok_0;
    assert(records.contains(record));
    lemma_listed(symbols, names, n, record);
    lemma_name_offset(names, record.name, n);
    assert(name_offset(names, record.name) <= u32::MAX);
    lemma_payload(symbols);
    lemma_string_table(names, record.name, n);
    let at = name_offset(names, record.name);
    let name = names[record.name];
    let table = super::payload::string_table(names, n);
    assert(payload.len() == 24 * count + table.len()) by {
        super::laws::lemma_entries_bytes(sorted_form::<ManifestEntry>(entries_of(symbols)));
    }
    assert(payload.subrange(24 * count + at, 24 * count + at + name.len()) =~= table.subrange(
        at,
        at + name.len(),
    ));
    assert(payload[24 * count + at + name.len()] == table[at + name.len()]);
}

/// Different entries have different records.
proof fn lemma_one_to_one(symbols: Seq<SymbolModel>, i: int, k: int, j: int, l: int)
    requires
        names_are_text(symbols),
        payload_of(symbols).is_ok(),
        record_at(symbols, i, k),
        record_at(symbols, j, l),
    ensures
        i == j <==> k == l,
        ({
            let payload = payload_of(symbols)->Ok_0.0;
            name_off_at(payload, i) == name_off_at(payload, j) <==> all_records(symbols)[k].name
                == all_records(symbols)[l].name
        }),
        ({
            let payload = payload_of(symbols)->Ok_0.0;
            name_off_at(payload, i) == name_off_at(payload, j) && rva_at(payload, i) == rva_at(
                payload,
                j,
            ) ==> i == j
        }),
{
    let names = name_table(symbols);
    let n = names.len() as int;
    let records = all_records(symbols);
    let (payload, count) = payload_of(symbols)->Ok_0;
    lemma_record(symbols, i, k);
    lemma_record(symbols, j, l);
    let (a, b) = (records[k], records[l]);
    if a.name < b.name {
        lemma_name_offset(names, a.name, b.name);
    } else if b.name < a.name {
        lemma_name_offset(names, b.name, a.name);
    }
    lemma_payload(symbols);
    let sorted = sorted_form::<ManifestEntry>(entries_of(symbols));
    if payload_entry(payload, i) == payload_entry(payload, j) && i != j {
        <ManifestEntry as Ranked>::precedes_irreflexive(sorted[i]);
        if i < j {
            assert(<ManifestEntry as Ranked>::precedes(sorted[i], sorted[j]));
        } else {
            assert(<ManifestEntry as Ranked>::precedes(sorted[j], sorted[i]));
        }
        assert(false);
    }
    if a.name == b.name && a.rva == b.rva {
        let name = names[a.name];
        lemma_records(symbols, name, 0);
        lemma_kept_distinct(records_of(symbols, name));
        let kept = kept_records(records_of(symbols, name));
        let x = choose|x: int| 0 <= x < kept.len() && kept[x] == (a.rva, a.flags);
        let y = choose|y: int| 0 <= y < kept.len() && kept[y] == (b.rva, b.flags);
        if x < y {
            assert(kept[x].0 != kept[y].0);
        } else if y < x {
            assert(kept[y].0 != kept[x].0);
        }
        assert(a == b);
        lemma_listed_once(symbols, names, n);
        assert(k == l);
    }
}

/// A record has an entry.
proof fn lemma_entry(symbols: Seq<SymbolModel>, k: int) -> (i: int)
    requires
        names_are_text(symbols),
        payload_of(symbols).is_ok(),
        0 <= k < all_records(symbols).len(),
    ensures
        record_at(symbols, i, k),
{
    let entries = entries_of(symbols);
    lemma_payload(symbols);
    let sorted = sorted_form::<ManifestEntry>(entries);
    assert(entries.contains(entries[k]));
    assert(sorted.contains(entries[k]));
    choose|i: int| 0 <= i < sorted.len() && sorted[i] == entries[k]
}

/// Every entry is that of a symbol: it has its name, the hash of that name, and its address.
pub proof fn law_entries_name_symbols(symbols: Seq<SymbolModel>, i: int)
    requires
        names_are_text(symbols),
        payload_of(symbols).is_ok(),
        0 <= i < payload_of(symbols)->Ok_0.1,
    ensures
        ({
            let (payload, count) = payload_of(symbols)->Ok_0;
            exists|s: int|
                0 <= s < symbols.len() && #[trigger] is_at(
                    symbols[s],
                    symbols[s].name,
                    rva_at(payload, i),
                ) && is_named(payload, count, i, symbols[s].name) && hash_at(payload, i) == fnv(
                    symbols[s].name,
                )
        }),
{
    let k = lemma_entry_record(symbols, i);
    lemma_record(symbols, i, k);
    let record = all_records(symbols)[k];
    let name = name_table(symbols)[record.name];
    lemma_kept_has_symbol(symbols, name, record.rva, record.flags);
    let s = choose|s: int| 0 <= s < symbols.len() && #[trigger] is_at(symbols[s], name, record.rva);
    assert(is_at(symbols[s], symbols[s].name, record.rva));
}

proof fn lemma_kept_has_symbol(symbols: Seq<SymbolModel>, name: Seq<u8>, rva: u64, flags: u32)
    requires
        kept_records(records_of(symbols, name)).contains((rva, flags)),
    ensures
        records_of(symbols, name).contains((rva, flags)),
        exists|s: int| 0 <= s < symbols.len() && #[trigger] is_at(symbols[s], name, rva),
{
    let records = records_of(symbols, name);
    lemma_records(symbols, name, rva);
    assert(records.no_duplicates());
    lemma_filtered(records, |r: (u64, u32)| !is_display(r.1));
    let j = choose|j: int| 0 <= j < records.len() && records[j] == (rva, flags);
    assert(has_rva(records, rva));
    lemma_has_rva(symbols, name, rva);
    let s = choose|s: int|
        0 <= s < symbols.len() && (#[trigger] symbols[s]).name == name && symbols[s].rva == rva;
    assert(is_at(symbols[s], name, rva));
}

/// The entries are in the order of their hashes, then of their names in the string table, then of their
/// addresses; no two have the same name and address.
pub proof fn law_entries_are_sorted(symbols: Seq<SymbolModel>, i: int, j: int)
    requires
        names_are_text(symbols),
        payload_of(symbols).is_ok(),
        0 <= i < j < payload_of(symbols)->Ok_0.1,
    ensures
        ({
            let payload = payload_of(symbols)->Ok_0.0;
            ||| hash_at(payload, i) < hash_at(payload, j)
            ||| hash_at(payload, i) == hash_at(payload, j) && name_off_at(payload, i) < name_off_at(
                payload,
                j,
            )
            ||| hash_at(payload, i) == hash_at(payload, j) && name_off_at(payload, i)
                == name_off_at(payload, j) && rva_at(payload, i) < rva_at(payload, j)
        }),
{
    let payload = payload_of(symbols)->Ok_0.0;
    let k = lemma_entry_record(symbols, i);
    let l = lemma_entry_record(symbols, j);
    lemma_one_to_one(symbols, i, k, j, l);
    lemma_payload(symbols);
    let sorted = sorted_form::<ManifestEntry>(entries_of(symbols));
    assert(payload_entry(payload, i) == sorted[i] && payload_entry(payload, j) == sorted[j]);
    assert(<ManifestEntry as Ranked>::precedes(sorted[i], sorted[j]));
}

/// Whether a name has a symbol that is no display alias: flag 64 marks those.
pub open spec fn has_real_symbol(symbols: Seq<SymbolModel>, name: Seq<u8>) -> bool {
    exists|s: int| 0 <= s < symbols.len() && (#[trigger] symbols[s]).name == name && symbols[s].flags
        & 64 == 0
}

/// Whether a name has such a symbol at an address.
pub open spec fn has_real_symbol_at(symbols: Seq<SymbolModel>, name: Seq<u8>, rva: u64) -> bool {
    exists|s: int|
        0 <= s < symbols.len() && #[trigger] is_at(symbols[s], name, rva) && symbols[s].flags & 64
            == 0
}

/// A record is real where one of its symbols is.
proof fn lemma_real(symbols: Seq<SymbolModel>, name: Seq<u8>)
    ensures
        forall|k: int|
            0 <= k < records_of(symbols, name).len() ==> (!is_display(
                (#[trigger] records_of(symbols, name)[k]).1,
            ) <==> has_real_symbol_at(symbols, name, records_of(symbols, name)[k].0)),
        has_real(records_of(symbols, name)) <==> has_real_symbol(symbols, name),
{
    let records = records_of(symbols, name);
    assert forall|k: int| 0 <= k < records.len() implies (!is_display((#[trigger] records[k]).1)
        <==> has_real_symbol_at(symbols, name, records[k].0)) by {
        law_markers_need_every_symbol(symbols, name, k);
        let rva = records[k].0;
        if !is_display(records[k].1) {
            let s = choose|s: int|
                0 <= s < symbols.len() && (#[trigger] symbols[s]).name == name && symbols[s].rva
                    == rva && symbols[s].flags & 64 == 0;
            assert(is_at(symbols[s], name, rva));
        }
        if has_real_symbol_at(symbols, name, rva) {
            let s = choose|s: int|
                0 <= s < symbols.len() && #[trigger] is_at(symbols[s], name, rva)
                    && symbols[s].flags & 64 == 0;
            assert(symbols[s].name == name);
        }
    }
    if has_real(records) {
        let k = choose|k: int| 0 <= k < records.len() && !is_display((#[trigger] records[k]).1);
        let rva = records[k].0;
        let s = choose|s: int|
            0 <= s < symbols.len() && #[trigger] is_at(symbols[s], name, rva) && symbols[s].flags
                & 64 == 0;
        assert(symbols[s].name == name);
    }
    if has_real_symbol(symbols, name) {
        let s = choose|s: int|
            0 <= s < symbols.len() && (#[trigger] symbols[s]).name == name && symbols[s].flags & 64
                == 0;
        assert(is_at(symbols[s], name, symbols[s].rva));
        lemma_has_rva(symbols, name, symbols[s].rva);
        let k = choose|k: int| 0 <= k < records.len() && (#[trigger] records[k]).0
            == symbols[s].rva;
        assert(!is_display(records[k].1));
    }
}

/// Every symbol has an entry with its name and its address, but a display alias of a name that
/// elsewhere is a real one: the real name wins.
pub proof fn law_symbols_have_entries(symbols: Seq<SymbolModel>, s: int)
    requires
        names_are_text(symbols),
        payload_of(symbols).is_ok(),
        0 <= s < symbols.len(),
        has_real_symbol_at(symbols, symbols[s].name, symbols[s].rva) || !has_real_symbol(
            symbols,
            symbols[s].name,
        ),
    ensures
        ({
            let (payload, count) = payload_of(symbols)->Ok_0;
            exists|i: int|
                0 <= i < count && #[trigger] rva_at(payload, i) == symbols[s].rva && is_named(
                    payload,
                    count,
                    i,
                    symbols[s].name,
                )
        }),
{
    let (payload, count) = payload_of(symbols)->Ok_0;
    let name = symbols[s].name;
    let rva = symbols[s].rva;
    let records = records_of(symbols, name);
    let kept = kept_records(records);
    lemma_has_rva(symbols, name, rva);
    let k = choose|k: int| 0 <= k < records.len() && (#[trigger] records[k]).0 == rva;
    lemma_real(symbols, name);
    lemma_records(symbols, name, 0);
    assert(records.no_duplicates());
    lemma_filtered(records, |r: (u64, u32)| !is_display(r.1));
    assert(records.contains(records[k]));
    assert(kept.contains((rva, records[k].1)));
    let names = name_table(symbols);
    lemma_name_table(symbols);
    assert(names.contains(name));
    let g = choose|g: int| 0 <= g < names.len() && names[g] == name;
    let record = NamedRecord { name: g, rva, flags: records[k].1 };
    lemma_listed(symbols, names, names.len() as int, record);
    let all = all_records(symbols);
    assert(all.contains(record));
    let l = choose|l: int| 0 <= l < all.len() && all[l] == record;
    let i = lemma_entry(symbols, l);
    lemma_record(symbols, i, l);
    assert(rva_at(payload, i) == rva);
}

/// A display alias has no entry where its name is a real one at other addresses only.
pub proof fn law_real_names_hide_aliases(symbols: Seq<SymbolModel>, name: Seq<u8>, i: int)
    requires
        names_are_text(symbols),
        payload_of(symbols).is_ok(),
        0 <= i < payload_of(symbols)->Ok_0.1,
        is_named(payload_of(symbols)->Ok_0.0, payload_of(symbols)->Ok_0.1, i, name),
        !name.contains(0u8),
        has_real_symbol(symbols, name),
    ensures
        has_real_symbol_at(symbols, name, rva_at(payload_of(symbols)->Ok_0.0, i)),
{
    let (payload, count) = payload_of(symbols)->Ok_0;
    let k = lemma_entry_record(symbols, i);
    lemma_record(symbols, i, k);
    let record = all_records(symbols)[k];
    let own = name_table(symbols)[record.name];
    lemma_kept_has_symbol(symbols, own, record.rva, record.flags);
    let s = choose|s: int| 0 <= s < symbols.len() && #[trigger] is_at(symbols[s], own, record.rva);
    assert(!symbols[s].name.contains(0u8));
    lemma_same_name(payload, count, i, own, name);
    let records = records_of(symbols, name);
    lemma_real(symbols, name);
    lemma_records(symbols, name, 0);
    assert(records.no_duplicates());
    lemma_filtered(records, |r: (u64, u32)| !is_display(r.1));
    let j = choose|j: int| 0 <= j < records.len() && records[j] == (record.rva, record.flags);
    assert(!is_display(records[j].1));
}

proof fn lemma_same_name(payload: Seq<u8>, count: int, i: int, a: Seq<u8>, b: Seq<u8>)
    requires
        is_named(payload, count, i, a),
        is_named(payload, count, i, b),
        !a.contains(0u8),
        !b.contains(0u8),
        count >= 0,
    ensures
        a == b,
{
    let at = 24 * count + name_off_at(payload, i);
    if a.len() < b.len() {
        assert(payload.subrange(at, at + b.len())[a.len() as int] == payload[at + a.len()]);
        assert(b[a.len() as int] == 0u8);
        assert(false);
    }
    if b.len() < a.len() {
        assert(payload.subrange(at, at + a.len())[b.len() as int] == payload[at + b.len()]);
        assert(a[b.len() as int] == 0u8);
        assert(false);
    }
}

/// Merging keeps the other flags of both.
proof fn lemma_merged_flags(a: u32, b: u32)
    ensures
        (merged_flags(a, b) & 1 != 0) == (a & 1 != 0 || b & 1 != 0),
        (merged_flags(a, b) & 2 != 0) == (a & 2 != 0 || b & 2 != 0),
        (merged_flags(a, b) & 8 != 0) == (a & 8 != 0 || b & 8 != 0),
        (merged_flags(a, b) & 16 != 0) == (a & 16 != 0 || b & 16 != 0),
        (merged_flags(a, b) & 32 != 0) == (a & 32 != 0 || b & 32 != 0),
{
    assert((merged_flags(a, b) & 1 != 0) == (a & 1 != 0 || b & 1 != 0) && (merged_flags(a, b) & 2
        != 0) == (a & 2 != 0 || b & 2 != 0) && (merged_flags(a, b) & 8 != 0) == (a & 8 != 0 || b & 8
        != 0) && (merged_flags(a, b) & 16 != 0) == (a & 16 != 0 || b & 16 != 0) && (merged_flags(
        a,
        b,
    ) & 32 != 0) == (a & 32 != 0 || b & 32 != 0)) by (bit_vector);
}

/// A record has a plain flag where one of its symbols has it.
proof fn lemma_any_marked(symbols: Seq<SymbolModel>, name: Seq<u8>, k: int, flag: u32)
    requires
        flag == 1 || flag == 2 || flag == 8 || flag == 16 || flag == 32,
        0 <= k < records_of(symbols, name).len(),
    ensures
        records_of(symbols, name)[k].1 & flag != 0 <==> any_marked(
            symbols,
            name,
            records_of(symbols, name)[k].0,
            flag,
        ),
    decreases symbols.len(),
{
    let rest = symbols.drop_last();
    let last = symbols.last();
    let before = records_of(rest, name);
    let (rva, flags) = records_of(symbols, name)[k];
    assert(any_marked(symbols, name, rva, flag) <==> any_marked(rest, name, rva, flag) || (is_at(
        last,
        name,
        rva,
    ) && last.flags & flag != 0)) by {
        if any_marked(symbols, name, rva, flag) {
            let i = choose|i: int|
                0 <= i < symbols.len() && #[trigger] is_at(symbols[i], name, rva)
                    && symbols[i].flags & flag != 0;
            if i < rest.len() {
                assert(is_at(rest[i], name, rva));
            }
        }
        if any_marked(rest, name, rva, flag) {
            let i = choose|i: int|
                0 <= i < rest.len() && #[trigger] is_at(rest[i], name, rva) && rest[i].flags & flag
                    != 0;
            assert(is_at(symbols[i], name, rva));
        }
        if is_at(last, name, rva) && last.flags & flag != 0 {
            assert(is_at(symbols[symbols.len() - 1], name, rva));
        }
    }
    if k < before.len() {
        lemma_any_marked(rest, name, k, flag);
        if last.name == name && last.rva == rva {
            lemma_merged_flags(before[k].1, last.flags);
            assert(before[k].0 == rva);
            assert(has_rva(before, rva));
        }
    } else {
        assert(flags == last.flags && rva == last.rva && last.name == name);
        assert(!has_rva(before, rva));
        if any_marked(rest, name, rva, flag) {
            let i = choose|i: int|
                0 <= i < rest.len() && #[trigger] is_at(rest[i], name, rva) && rest[i].flags & flag
                    != 0;
            lemma_has_rva(rest, name, rva);
            assert(rest[i].name == name);
            assert(false);
        }
    }
}

/// More than one element passes a filter exactly where there are two that do.
proof fn lemma_two_pass<A>(s: Seq<A>, pred: spec_fn(A) -> bool)
    ensures
        s.filter(pred).len() >= 1 <==> exists|i: int| 0 <= i < s.len() && pred(#[trigger] s[i]),
        s.filter(pred).len() >= 2 <==> exists|i: int, j: int|
            0 <= i < j < s.len() && pred(#[trigger] s[i]) && pred(#[trigger] s[j]),
    decreases s.len(),
{
    reveal(Seq::filter);
    if s.len() > 0 {
        let rest = s.drop_last();
        lemma_two_pass(rest, pred);
        let n = s.len() - 1;
        if rest.filter(pred).len() >= 1 {
            let i = choose|i: int| 0 <= i < rest.len() && pred(#[trigger] rest[i]);
            assert(pred(s[i]));
            if pred(s[n]) {
                assert(pred(s[i]) && pred(s[n]));
            }
        }
        if rest.filter(pred).len() >= 2 {
            let (i, j) = choose|i: int, j: int|
                0 <= i < j < rest.len() && pred(#[trigger] rest[i]) && pred(#[trigger] rest[j]);
            assert(pred(s[i]) && pred(s[j]));
        }
        if exists|i: int| 0 <= i < s.len() && pred(#[trigger] s[i]) {
            let i = choose|i: int| 0 <= i < s.len() && pred(#[trigger] s[i]);
            if i < n {
                assert(pred(rest[i]));
            }
        }
        if exists|i: int, j: int|
            0 <= i < j < s.len() && pred(#[trigger] s[i]) && pred(#[trigger] s[j]) {
            let (i, j) = choose|i: int, j: int|
                0 <= i < j < s.len() && pred(#[trigger] s[i]) && pred(#[trigger] s[j]);
            assert(pred(rest[i]));
            if j < n {
                assert(pred(rest[i]) && pred(rest[j]));
            }
        }
    }
}

/// Whether another entry has the same name.
pub open spec fn shares_its_name(payload: Seq<u8>, count: int, i: int) -> bool {
    exists|j: int|
        0 <= j < count && j != i && #[trigger] name_off_at(payload, j) == name_off_at(payload, i)
}

/// Whether two entries that are no display aliases have the address.
pub open spec fn has_two_names(payload: Seq<u8>, count: int, rva: u64) -> bool {
    exists|i: int, j: int|
        0 <= i < count && 0 <= j < count && i != j && #[trigger] rva_at(payload, i) == rva
            && #[trigger] rva_at(payload, j) == rva && flags_at(payload, i) & 64 == 0 && flags_at(
            payload,
            j,
        ) & 64 == 0
}

proof fn lemma_entry_flags(flags: u32, is_dup: bool, is_multi: bool)
    ensures
        ({
            let all = entry_flags(flags, is_dup, is_multi);
            &&& (all & 1 != 0) == (flags & 1 != 0)
            &&& (all & 2 != 0) == (flags & 2 != 0)
            &&& (all & 4 != 0) == (flags & 4 != 0)
            &&& (all & 8 != 0) == (flags & 8 != 0 || is_multi)
            &&& (all & 16 != 0) == (flags & 16 != 0 || is_dup)
            &&& (all & 32 != 0) == (flags & 32 != 0)
            &&& (all & 64 != 0) == (flags & 64 != 0)
        }),
{
    assert(forall|flags: u32, add: u32|
        add == 0 || add == 8 || add == 16 || add == 24 ==> {
            let all = #[trigger] (flags | add);
            &&& (all & 1 != 0) == (flags & 1 != 0)
            &&& (all & 2 != 0) == (flags & 2 != 0)
            &&& (all & 4 != 0) == (flags & 4 != 0)
            &&& (all & 8 != 0) == (flags & 8 != 0 || add & 8 != 0)
            &&& (all & 16 != 0) == (flags & 16 != 0 || add & 16 != 0)
            &&& (all & 32 != 0) == (flags & 32 != 0)
            &&& (all & 64 != 0) == (flags & 64 != 0)
        }) by (bit_vector);
    assert((flags | 16) | 8 == flags | 24 && flags | 0 == flags && 8u32 & 16 == 0 && 16u32 & 8 == 0
        && 24u32 & 8 != 0 && 24u32 & 16 != 0 && 8u32 & 8 != 0 && 16u32 & 16 != 0 && 0u32 & 8 == 0
        && 0u32 & 16 == 0) by (bit_vector);
}

/// A name has several kept records exactly where its entry is not the only one of the name.
proof fn lemma_dup(symbols: Seq<SymbolModel>, i: int, k: int)
    requires
        names_are_text(symbols),
        payload_of(symbols).is_ok(),
        record_at(symbols, i, k),
    ensures
        ({
            let (payload, count) = payload_of(symbols)->Ok_0;
            let name = name_table(symbols)[all_records(symbols)[k].name];
            kept_records(records_of(symbols, name)).len() > 1 <==> shares_its_name(
                payload,
                count,
                i,
            )
        }),
{
    let (payload, count) = payload_of(symbols)->Ok_0;
    let names = name_table(symbols);
    let n = names.len() as int;
    let all = all_records(symbols);
    let record = all[k];
    let name = names[record.name];
    let kept = kept_records(records_of(symbols, name));
    lemma_record(symbols, i, k);
    lemma_records(symbols, name, 0);
    lemma_kept_distinct(records_of(symbols, name));
    let x = choose|x: int| 0 <= x < kept.len() && kept[x] == (record.rva, record.flags);
    if kept.len() > 1 {
        let y = if x == 0 {
            1
        } else {
            0int
        };
        if x < y {
            assert(kept[x].0 != kept[y].0);
        } else {
            assert(kept[y].0 != kept[x].0);
        }
        let other = NamedRecord { name: record.name, rva: kept[y].0, flags: kept[y].1 };
        assert(kept.contains((other.rva, other.flags)));
        lemma_listed(symbols, names, n, other);
        let l = choose|l: int| 0 <= l < all.len() && all[l] == other;
        let j = lemma_entry(symbols, l);
        lemma_one_to_one(symbols, i, k, j, l);
        assert(name_off_at(payload, j) == name_off_at(payload, i));
    }
    if shares_its_name(payload, count, i) {
        let j = choose|j: int|
            0 <= j < count && j != i && #[trigger] name_off_at(payload, j) == name_off_at(
                payload,
                i,
            );
        let l = lemma_entry_record(symbols, j);
        lemma_one_to_one(symbols, i, k, j, l);
        lemma_record(symbols, j, l);
        let y = choose|y: int| 0 <= y < kept.len() && kept[y] == (all[l].rva, all[l].flags);
        assert(x != y);
    }
}

/// An address has several real records exactly where several real entries have it.
proof fn lemma_multi(symbols: Seq<SymbolModel>, rva: u64)
    requires
        names_are_text(symbols),
        payload_of(symbols).is_ok(),
    ensures
        names_at(all_records(symbols), rva) > 1 <==> has_two_names(
            payload_of(symbols)->Ok_0.0,
            payload_of(symbols)->Ok_0.1,
            rva,
        ),
{
    let (payload, count) = payload_of(symbols)->Ok_0;
    let all = all_records(symbols);
    let pred = |r: NamedRecord| r.rva == rva && !is_display(r.flags);
    lemma_two_pass(all, pred);
    if names_at(all, rva) > 1 {
        let (k, l) = choose|k: int, l: int|
            0 <= k < l < all.len() && pred(#[trigger] all[k]) && pred(#[trigger] all[l]);
        let i = lemma_entry(symbols, k);
        let j = lemma_entry(symbols, l);
        lemma_one_to_one(symbols, i, k, j, l);
        lemma_real_entry(symbols, i, k);
        lemma_real_entry(symbols, j, l);
        assert(rva_at(payload, i) == rva && rva_at(payload, j) == rva);
    }
    if has_two_names(payload, count, rva) {
        let (i, j) = choose|i: int, j: int|
            0 <= i < count && 0 <= j < count && i != j && #[trigger] rva_at(payload, i) == rva
                && #[trigger] rva_at(payload, j) == rva && flags_at(payload, i) & 64 == 0
                && flags_at(payload, j) & 64 == 0;
        let k = lemma_entry_record(symbols, i);
        let l = lemma_entry_record(symbols, j);
        lemma_one_to_one(symbols, i, k, j, l);
        lemma_real_entry(symbols, i, k);
        lemma_real_entry(symbols, j, l);
        assert(pred(all[k]) && pred(all[l]));
        if k < l {
            assert(pred(all[k]) && pred(all[l]));
        } else {
            assert(pred(all[l]) && pred(all[k]));
        }
    }
}

proof fn lemma_real_entry(symbols: Seq<SymbolModel>, i: int, k: int)
    requires
        names_are_text(symbols),
        payload_of(symbols).is_ok(),
        record_at(symbols, i, k),
    ensures
        rva_at(payload_of(symbols)->Ok_0.0, i) == all_records(symbols)[k].rva,
        flags_at(payload_of(symbols)->Ok_0.0, i) & 64 == 0 <==> !is_display(
            all_records(symbols)[k].flags,
        ),
{
    lemma_record(symbols, i, k);
    let record = all_records(symbols)[k];
    lemma_entry_flags(
        record.flags,
        kept_records(records_of(symbols, name_table(symbols)[record.name])).len() > 1,
        names_at(all_records(symbols), record.rva) > 1,
    );
}

/// What the flags of an entry say. Bits 0, 1 and 5, for code, data and inlined calls, are set where one
/// of the symbols of its name and address has them; bits 2 and 6, for local names and display aliases,
/// where all of them do. Bit 4 is set where another entry has the same name, and bit 3 where two real
/// names have its address.
pub proof fn law_entry_flags(symbols: Seq<SymbolModel>, i: int, s: int)
    requires
        names_are_text(symbols),
        payload_of(symbols).is_ok(),
        0 <= i < payload_of(symbols)->Ok_0.1,
        0 <= s < symbols.len(),
        is_named(
            payload_of(symbols)->Ok_0.0,
            payload_of(symbols)->Ok_0.1,
            i,
            symbols[s].name,
        ),
    ensures
        ({
            let (payload, count) = payload_of(symbols)->Ok_0;
            let name = symbols[s].name;
            let rva = rva_at(payload, i);
            let flags = flags_at(payload, i);
            &&& flags & 1 != 0 <==> any_marked(symbols, name, rva, 1)
            &&& flags & 2 != 0 <==> any_marked(symbols, name, rva, 2)
            &&& flags & 4 != 0 <==> all_marked(symbols, name, rva, 4)
            &&& flags & 8 != 0 <==> has_two_names(payload, count, rva) || any_marked(
                symbols,
                name,
                rva,
                8,
            )
            &&& flags & 16 != 0 <==> shares_its_name(payload, count, i) || any_marked(
                symbols,
                name,
                rva,
                16,
            )
            &&& flags & 32 != 0 <==> any_marked(symbols, name, rva, 32)
            &&& flags & 64 != 0 <==> all_marked(symbols, name, rva, 64)
        }),
{
    let (payload, count) = payload_of(symbols)->Ok_0;
    let k = lemma_entry_record(symbols, i);
    lemma_record(symbols, i, k);
    let record = all_records(symbols)[k];
    let own = name_table(symbols)[record.name];
    lemma_kept_has_symbol(symbols, own, record.rva, record.flags);
    let t = choose|t: int| 0 <= t < symbols.len() && #[trigger] is_at(symbols[t], own, record.rva);
    assert(!symbols[t].name.contains(0u8));
    lemma_same_name(payload, count, i, own, symbols[s].name);
    lemma_entry_flags(
        record.flags,
        kept_records(records_of(symbols, own)).len() > 1,
        names_at(all_records(symbols), record.rva) > 1,
    );
    lemma_dup(symbols, i, k);
    lemma_multi(symbols, record.rva);
    let records = records_of(symbols, own);
    let r = choose|r: int| 0 <= r < records.len() && records[r] == (record.rva, record.flags);
    law_markers_need_every_symbol(symbols, own, r);
    lemma_any_marked(symbols, own, r, 1);
    lemma_any_marked(symbols, own, r, 2);
    lemma_any_marked(symbols, own, r, 8);
    lemma_any_marked(symbols, own, r, 16);
    lemma_any_marked(symbols, own, r, 32);
}

} // verus!
