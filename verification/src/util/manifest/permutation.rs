//! A manifest does not depend on the order of its symbols.

use vstd::prelude::*;
use vstd::seq_lib::{commutative_foldl, lemma_fold_left_permutation};
use crate::order::{lemma_ascending_unique, lemma_sorted_form_exists, same_keys, sorted_form};
use super::format::{ManifestCompression, ManifestEntry, SymbolModel};
use super::laws::{lemma_kept_is_record, lemma_record_is_kept};
use super::payload::{
    distinct_rvas, entries_of, entry_of, has_real, has_rva, is_display, kept_records,
    lemma_with_record_distinct, merged_flags, name_table, named_records, names_at, payload_of,
    records_of, with_record, NamedRecord,
};
use super::write::manifest_of;

verus! {

/// The flags of a name at an address, with one more symbol.
pub open spec fn merged_at(
    so_far: Option<u32>,
    symbol: SymbolModel,
    name: Seq<u8>,
    rva: u64,
) -> Option<u32> {
    if symbol.name != name || symbol.rva != rva {
        so_far
    } else {
        match so_far {
            None => Some(symbol.flags),
            Some(flags) => Some(merged_flags(flags, symbol.flags)),
        }
    }
}

/// The flags that the symbols give a name at an address.
pub open spec fn flags_at(symbols: Seq<SymbolModel>, name: Seq<u8>, rva: u64) -> Option<u32> {
    symbols.fold_left(
        None,
        |so_far: Option<u32>, symbol: SymbolModel| merged_at(so_far, symbol, name, rva),
    )
}

proof fn lemma_merging_commutes(name: Seq<u8>, rva: u64)
    ensures
        commutative_foldl(
            |so_far: Option<u32>, symbol: SymbolModel| merged_at(so_far, symbol, name, rva),
        ),
{
    assert forall|x: SymbolModel, y: SymbolModel, v: Option<u32>| #[trigger]
        merged_at(merged_at(v, x, name, rva), y, name, rva) == merged_at(
            merged_at(v, y, name, rva),
            x,
            name,
            rva,
        ) by {
        let (a, b) = (x.flags, y.flags);
        match v {
            None => {
                assert(merged_flags(a, b) == merged_flags(b, a)) by (bit_vector);
            },
            Some(c) => {
                assert(merged_flags(merged_flags(c, a), b) == merged_flags(merged_flags(c, b), a))
                    by (bit_vector);
            },
        }
    }
}

/// The records of a name are those that its flags at each address give.
pub(crate) proof fn lemma_records(symbols: Seq<SymbolModel>, name: Seq<u8>, rva: u64)
    ensures
        distinct_rvas(records_of(symbols, name)),
        forall|flags: u32| #[trigger]
            records_of(symbols, name).contains((rva, flags)) <==> flags_at(symbols, name, rva)
                == Some(flags),
    decreases symbols.len(),
{
    let all = records_of(symbols, name);
    if symbols.len() > 0 {
        let rest = symbols.drop_last();
        let last = symbols.last();
        let before = records_of(rest, name);
        lemma_records(rest, name, rva);
        assert(flags_at(symbols, name, rva) == merged_at(
            flags_at(rest, name, rva),
            last,
            name,
            rva,
        ));
        if last.name == name {
            lemma_with_record_distinct(before, last.rva, last.flags);
            assert forall|flags: u32| #[trigger]
                all.contains((rva, flags)) <==> flags_at(symbols, name, rva) == Some(flags) by {
                lemma_with_record(before, last.rva, last.flags, rva, flags);
                if last.rva == rva {
                    match flags_at(rest, name, rva) {
                        Some(kept) => {
                            assert(before.contains((rva, kept)));
                        },
                        None => {
                            if has_rva(before, rva) {
                                let i = choose|i: int|
                                    0 <= i < before.len() && (#[trigger] before[i]).0 == rva;
                                assert(before.contains((rva, before[i].1)));
                            }
                        },
                    }
                }
            }
        }
    } else {
        assert(all =~= Seq::empty());
    }
}

proof fn lemma_with_record(
    records: Seq<(u64, u32)>,
    at: u64,
    new_flags: u32,
    rva: u64,
    flags: u32,
)
    requires
        distinct_rvas(records),
    ensures
        ({
            let more = with_record(records, at, new_flags);
            &&& rva != at ==> (more.contains((rva, flags)) <==> records.contains((rva, flags)))
            &&& forall|old_flags: u32| #[trigger]
                records.contains((at, old_flags)) ==> (more.contains((at, flags)) <==> flags
                    == merged_flags(old_flags, new_flags))
            &&& !has_rva(records, at) ==> (more.contains((at, flags)) <==> flags == new_flags)
        }),
{
    let more = with_record(records, at, new_flags);
    if rva != at {
        if more.contains((rva, flags)) {
            let i = choose|i: int| 0 <= i < more.len() && more[i] == (rva, flags);
            assert(records[i] == (rva, flags));
        }
        if records.contains((rva, flags)) {
            let i = choose|i: int| 0 <= i < records.len() && records[i] == (rva, flags);
            assert(more[i] == (rva, flags));
        }
    }
    assert forall|old_flags: u32| #[trigger] records.contains((at, old_flags)) implies (
    more.contains((at, flags)) <==> flags == merged_flags(old_flags, new_flags)) by {
        let i = choose|i: int| 0 <= i < records.len() && records[i] == (at, old_flags);
        assert(records[i].0 == at);
        assert(more[i] == (at, merged_flags(old_flags, new_flags)));
        if more.contains((at, flags)) {
            let j = choose|j: int| 0 <= j < more.len() && more[j] == (at, flags);
            assert(records[j].0 == at);
            assert(i == j);
        }
    }
    if !has_rva(records, at) {
        assert(more[records.len() as int] == (at, new_flags));
        if more.contains((at, flags)) {
            let j = choose|j: int| 0 <= j < more.len() && more[j] == (at, flags);
            if j < records.len() {
                assert(records[j].0 == at);
            }
        }
    }
}

/// What a filter keeps of a sequence without duplicates.
pub(crate) proof fn lemma_filtered<A>(s: Seq<A>, pred: spec_fn(A) -> bool)
    requires
        s.no_duplicates(),
    ensures
        s.filter(pred).no_duplicates(),
        forall|x: A| #[trigger] s.filter(pred).contains(x) <==> s.contains(x) && pred(x),
    decreases s.len(),
{
    reveal(Seq::filter);
    let kept = s.filter(pred);
    if s.len() > 0 {
        let rest = s.drop_last();
        let last = s.last();
        lemma_filtered(rest, pred);
        let before = rest.filter(pred);
        assert forall|x: A| #[trigger] s.contains(x) <==> rest.contains(x) || x == last by {
            if rest.contains(x) {
                let i = choose|i: int| 0 <= i < rest.len() && rest[i] == x;
                assert(s[i] == x);
            }
            if s.contains(x) {
                let i = choose|i: int| 0 <= i < s.len() && s[i] == x;
                if i < rest.len() {
                    assert(rest[i] == x);
                }
            }
            assert(s[s.len() - 1] == last);
        }
        assert(!rest.contains(last));
        if pred(last) {
            assert(kept == before.push(last));
            assert(!before.contains(last));
            assert forall|x: A| #[trigger] kept.contains(x) <==> before.contains(x) || x
                == last by {
                assert(kept[before.len() as int] == last);
                if before.contains(x) {
                    let i = choose|i: int| 0 <= i < before.len() && before[i] == x;
                    assert(kept[i] == x);
                }
            }
        }
    }
}

/// Whether two sequences hold the same elements, each once.
spec fn same_once<A>(a: Seq<A>, b: Seq<A>) -> bool {
    a.no_duplicates() && b.no_duplicates() && forall|x: A| #[trigger]
        a.contains(x) <==> b.contains(x)
}

proof fn lemma_same_len<A>(a: Seq<A>, b: Seq<A>)
    requires
        same_once(a, b),
    ensures
        a.len() == b.len(),
{
    a.unique_seq_to_set();
    b.unique_seq_to_set();
    assert forall|x: A| #[trigger] a.to_set().contains(x) <==> b.to_set().contains(x) by {
        assert(a.contains(x) <==> b.contains(x));
    }
    assert(a.to_set() =~= b.to_set());
}

/// Whether two lists of symbols are made of the same symbols, each as often.
pub open spec fn are_permuted(a: Seq<SymbolModel>, b: Seq<SymbolModel>) -> bool {
    a.to_multiset() == b.to_multiset()
}

proof fn lemma_same_kept(a: Seq<SymbolModel>, b: Seq<SymbolModel>, name: Seq<u8>)
    requires
        are_permuted(a, b),
    ensures
        same_once(kept_records(records_of(a, name)), kept_records(records_of(b, name))),
        distinct_rvas(kept_records(records_of(a, name))),
        distinct_rvas(kept_records(records_of(b, name))),
{
    let (p, q) = (records_of(a, name), records_of(b, name));
    lemma_records(a, name, 0);
    lemma_records(b, name, 0);
    assert forall|x: (u64, u32)| #[trigger] p.contains(x) <==> q.contains(x) by {
        lemma_records(a, name, x.0);
        lemma_records(b, name, x.0);
        lemma_merging_commutes(name, x.0);
        lemma_fold_left_permutation(
            a,
            b,
            |so_far: Option<u32>, symbol: SymbolModel| merged_at(so_far, symbol, name, x.0),
            None,
        );
        assert(flags_at(a, name, x.0) == flags_at(b, name, x.0));
        assert(p.contains((x.0, x.1)) <==> flags_at(a, name, x.0) == Some(x.1));
        assert(q.contains((x.0, x.1)) <==> flags_at(b, name, x.0) == Some(x.1));
    }
    assert(p.no_duplicates());
    assert(q.no_duplicates());
    assert(has_real(p) == has_real(q)) by {
        if has_real(p) {
            let i = choose|i: int| 0 <= i < p.len() && !is_display((#[trigger] p[i]).1);
            assert(p.contains(p[i]));
            let j = choose|j: int| 0 <= j < q.len() && q[j] == p[i];
            assert(!is_display(q[j].1));
        }
        if has_real(q) {
            let i = choose|i: int| 0 <= i < q.len() && !is_display((#[trigger] q[i]).1);
            assert(q.contains(q[i]));
            assert(p.contains(q[i]));
            let j = choose|j: int| 0 <= j < p.len() && p[j] == q[i];
            assert(!is_display(p[j].1));
        }
    }
    let pred = |r: (u64, u32)| !is_display(r.1);
    lemma_filtered(p, pred);
    lemma_filtered(q, pred);
    lemma_kept_distinct(p);
    lemma_kept_distinct(q);
}

pub(crate) proof fn lemma_kept_distinct(records: Seq<(u64, u32)>)
    requires
        distinct_rvas(records),
    ensures
        distinct_rvas(kept_records(records)),
{
    let kept = kept_records(records);
    assert(records.no_duplicates());
    if has_real(records) {
        lemma_filtered(records, |r: (u64, u32)| !is_display(r.1));
        assert forall|i: int, j: int| 0 <= i < j < kept.len() implies (#[trigger] kept[i]).0 != (
        #[trigger] kept[j]).0 by {
            assert(kept.contains(kept[i]) && kept.contains(kept[j]));
            let k = choose|k: int| 0 <= k < records.len() && records[k] == kept[i];
            let l = choose|l: int| 0 <= l < records.len() && records[l] == kept[j];
            assert(k != l);
            if k < l {
                assert(records[k].0 != records[l].0);
            } else {
                assert(records[l].0 != records[k].0);
            }
        }
    }
}

/// Whether a record is a kept one of a name of the table.
pub(crate) open spec fn is_kept(
    symbols: Seq<SymbolModel>,
    names: Seq<Seq<u8>>,
    n: int,
    record: NamedRecord,
) -> bool {
    0 <= record.name < n && kept_records(records_of(symbols, names[record.name])).contains(
        (record.rva, record.flags),
    )
}

pub(crate) proof fn lemma_listed(
    symbols: Seq<SymbolModel>,
    names: Seq<Seq<u8>>,
    n: int,
    record: NamedRecord,
)
    requires
        0 <= n <= names.len(),
    ensures
        named_records(symbols, names, n).contains(record) <==> is_kept(symbols, names, n, record),
{
    let all = named_records(symbols, names, n);
    if all.contains(record) {
        let k = choose|k: int| 0 <= k < all.len() && all[k] == record;
        lemma_record_is_kept(symbols, names, n, k);
        let kept = kept_records(records_of(symbols, names[record.name]));
        let j = choose|j: int|
            0 <= j < kept.len() && #[trigger] kept[j] == (record.rva, record.flags);
    }
    if is_kept(symbols, names, n, record) {
        let kept = kept_records(records_of(symbols, names[record.name]));
        let j = choose|j: int| 0 <= j < kept.len() && kept[j] == (record.rva, record.flags);
        let k = lemma_kept_is_record(symbols, names, n, record.name, j);
        assert(all[k] == record);
    }
}

pub(crate) proof fn lemma_listed_once(symbols: Seq<SymbolModel>, names: Seq<Seq<u8>>, n: int)
    requires
        0 <= n <= names.len(),
    ensures
        named_records(symbols, names, n).no_duplicates(),
    decreases n,
{
    if n > 0 {
        lemma_listed_once(symbols, names, n - 1);
        let front = named_records(symbols, names, n - 1);
        let all = named_records(symbols, names, n);
        let kept = kept_records(records_of(symbols, names[n - 1]));
        lemma_records(symbols, names[n - 1], 0);
        lemma_kept_distinct(records_of(symbols, names[n - 1]));
        assert forall|i: int, j: int| 0 <= i < j < all.len() implies all[i] != all[j] by {
            if j >= front.len() {
                assert(all[j].name == n - 1 && all[j].rva == kept[j - front.len()].0);
                if i < front.len() {
                    assert(all[i] == front[i]);
                    lemma_record_is_kept(symbols, names, n - 1, i);
                } else {
                    assert(kept[i - front.len()].0 != kept[j - front.len()].0);
                }
            } else {
                assert(all[i] == front[i] && all[j] == front[j]);
            }
        }
    }
}

proof fn lemma_same_names(a: Seq<SymbolModel>, b: Seq<SymbolModel>)
    requires
        are_permuted(a, b),
    ensures
        name_table(a) == name_table(b),
{
    broadcast use vstd::seq_lib::group_to_multiset_ensures;

    let p = Seq::new(a.len(), |i: int| a[i].name);
    let q = Seq::new(b.len(), |i: int| b[i].name);
    assert forall|name: Seq<u8>| #[trigger] p.contains(name) <==> q.contains(name) by {
        if p.contains(name) {
            let i = choose|i: int| 0 <= i < p.len() && p[i] == name;
            assert(a.contains(a[i]));
            assert(a.to_multiset().count(a[i]) > 0);
            assert(b.contains(a[i]));
            let j = choose|j: int| 0 <= j < b.len() && b[j] == a[i];
            assert(q[j] == name);
        }
        if q.contains(name) {
            let i = choose|i: int| 0 <= i < q.len() && q[i] == name;
            assert(b.contains(b[i]));
            assert(b.to_multiset().count(b[i]) > 0);
            assert(a.contains(b[i]));
            let j = choose|j: int| 0 <= j < a.len() && a[j] == b[i];
            assert(p[j] == name);
        }
    }
    lemma_sorted_form_exists::<Vec<u8>>(p);
    lemma_sorted_form_exists::<Vec<u8>>(q);
    let (s, t) = (sorted_form::<Vec<u8>>(p), sorted_form::<Vec<u8>>(q));
    assert forall|name: Seq<u8>| #[trigger] s.contains(name) <==> t.contains(name) by {
        assert(s.contains(name) <==> p.contains(name));
        assert(t.contains(name) <==> q.contains(name));
    }
    lemma_ascending_unique::<Vec<u8>>(s, t);
}

/// The records of permuted lists are the same.
proof fn lemma_same_records(
    a: Seq<SymbolModel>,
    b: Seq<SymbolModel>,
    names: Seq<Seq<u8>>,
)
    requires
        are_permuted(a, b),
    ensures
        same_once(
            named_records(a, names, names.len() as int),
            named_records(b, names, names.len() as int),
        ),
{
    let n = names.len() as int;
    lemma_listed_once(a, names, n);
    lemma_listed_once(b, names, n);
    assert forall|record: NamedRecord| #[trigger]
        named_records(a, names, n).contains(record) <==> named_records(b, names, n).contains(
            record,
        ) by {
        lemma_listed(a, names, n, record);
        lemma_listed(b, names, n, record);
        if 0 <= record.name < n {
            lemma_same_kept(a, b, names[record.name]);
            let x = (record.rva, record.flags);
            assert(kept_records(records_of(a, names[record.name])).contains(x)
                <==> kept_records(records_of(b, names[record.name])).contains(x));
        }
    }
}

proof fn lemma_same_entry(
    a: Seq<SymbolModel>,
    b: Seq<SymbolModel>,
    names: Seq<Seq<u8>>,
    record: NamedRecord,
)
    requires
        are_permuted(a, b),
    ensures
        entry_of(a, names, named_records(a, names, names.len() as int), record) == entry_of(
            b,
            names,
            named_records(b, names, names.len() as int),
            record,
        ),
{
    let n = names.len() as int;
    let (p, q) = (named_records(a, names, n), named_records(b, names, n));
    let name = names[record.name];
    lemma_same_kept(a, b, name);
    lemma_same_len(kept_records(records_of(a, name)), kept_records(records_of(b, name)));
    lemma_same_records(a, b, names);
    let pred = |r: NamedRecord| r.rva == record.rva && !is_display(r.flags);
    lemma_filtered(p, pred);
    lemma_filtered(q, pred);
    assert forall|r: NamedRecord| #[trigger]
        p.filter(pred).contains(r) <==> q.filter(pred).contains(r) by {
        assert(p.contains(r) <==> q.contains(r));
    }
    lemma_same_len(p.filter(pred), q.filter(pred));
    assert(names_at(p, record.rva) == names_at(q, record.rva));
}

proof fn lemma_entries_within(a: Seq<SymbolModel>, b: Seq<SymbolModel>, entry: ManifestEntry)
    requires
        are_permuted(a, b),
        entries_of(a).contains(entry),
    ensures
        entries_of(b).contains(entry),
{
    let names = name_table(a);
    lemma_same_names(a, b);
    lemma_same_records(a, b, names);
    let n = names.len() as int;
    let (p, q) = (named_records(a, names, n), named_records(b, names, n));
    let i = choose|i: int| 0 <= i < entries_of(a).len() && entries_of(a)[i] == entry;
    assert(p.contains(p[i]));
    assert(q.contains(p[i]));
    let j = choose|j: int| 0 <= j < q.len() && q[j] == p[i];
    lemma_same_entry(a, b, names, p[i]);
    assert(entries_of(b)[j] == entry);
}

/// The payload of a manifest is the same, whatever the order of the symbols, and so is the manifest.
pub proof fn law_payload_has_no_order(
    a: Seq<SymbolModel>,
    b: Seq<SymbolModel>,
    build_id: Seq<u8>,
    compression: ManifestCompression,
)
    requires
        are_permuted(a, b),
    ensures
        payload_of(a) == payload_of(b),
        manifest_of(build_id, a, compression) == manifest_of(build_id, b, compression),
{
    lemma_same_names(a, b);
    let (p, q) = (entries_of(a), entries_of(b));
    lemma_sorted_form_exists::<ManifestEntry>(p);
    lemma_sorted_form_exists::<ManifestEntry>(q);
    let (s, t) = (sorted_form::<ManifestEntry>(p), sorted_form::<ManifestEntry>(q));
    assert forall|entry: ManifestEntry| #[trigger] s.contains(entry) <==> t.contains(entry) by {
        assert(s.contains(entry) <==> p.contains(entry));
        assert(t.contains(entry) <==> q.contains(entry));
        if p.contains(entry) {
            lemma_entries_within(a, b, entry);
        }
        if q.contains(entry) {
            lemma_entries_within(b, a, entry);
        }
    }
    assert(same_keys(s, t));
    lemma_ascending_unique::<ManifestEntry>(s, t);
}

} // verus!
