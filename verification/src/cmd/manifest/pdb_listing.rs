//! What the manifest of an executable lists by its PDB.

use vstd::prelude::*;
use vstd::utf8::*;
use crate::bytes::{group_field_len, le32, lemma_u32_at_le, u32_at};
use crate::util::manifest::format::SymbolModel;
use super::listing::{begins_with_one, compiler_prefixes, law_compiler_names_are_skipped};
use super::pdb::{
    build_id_of, inlined_names, is_flagged, names_inlined, pdb_entries, pdb_identity, pdb_input,
    propagated, public_entries, public_entry, qualified, record_entry, with_flag,
    with_record_entries, FunctionId, InlineeFacts, PdbFacts, PublicFact, RecordFact,
};

verus! {

/// Whether a public symbol can be hooked: it has an address, and a name that is none of those that
/// compilers and linkers make for themselves.
pub open spec fn is_hookable_public(public: PublicFact) -> bool {
    public.rva is Some && !begins_with_one(encode_utf8(public.name@), compiler_prefixes())
}

/// Whether a procedure or data record can be hooked: likewise, and its address is not zero.
pub open spec fn is_hookable_record(record: RecordFact) -> bool {
    &&& record.rva matches Some(rva) && rva != 0
    &&& !begins_with_one(encode_utf8(record.name@), compiler_prefixes())
}

/// Whether a procedure is one that is inlined somewhere.
pub open spec fn is_inlined_record(facts: PdbFacts, record: RecordFact) -> bool {
    is_hookable_record(record) && record.code && names_inlined(facts).contains(
        encode_utf8(record.name@),
    )
}

/// Whether a procedure at an address is one that is inlined somewhere.
pub open spec fn has_inline_sites(facts: PdbFacts, rva: u64) -> bool {
    exists|k: int|
        0 <= k < facts.records@.len() && #[trigger] is_inlined_record(facts, facts.records@[k])
            && facts.records@[k].rva->Some_0 == rva
}

/// The flags of an entry: bit 0 for code and bit 1 for data, bit 2 where it is local, and bit 5 where
/// it is code at an address with inline sites.
pub open spec fn pdb_flags(facts: PdbFacts, code: bool, local: bool, rva: u64) -> int {
    (if code {
        1int
    } else {
        2
    }) + (if local {
        4int
    } else {
        0
    }) + (if code && has_inline_sites(facts, rva) {
        32int
    } else {
        0
    })
}

proof fn lemma_flags()
    ensures
        1u32 | 4 == 5,
        2u32 | 4 == 6,
        1u32 | 0 == 1,
        2u32 | 0 == 2,
        1u32 | 32 == 33,
        5u32 | 32 == 37,
        33u32 | 32 == 33,
        37u32 | 32 == 37,
        1u32 & 1 == 1,
        5u32 & 1 == 1,
        33u32 & 1 == 1,
        37u32 & 1 == 1,
        2u32 & 1 == 0,
        6u32 & 1 == 0,
        1u32 & 32 == 0,
        2u32 & 32 == 0,
        5u32 & 32 == 0,
        6u32 & 32 == 0,
        33u32 & 32 == 32,
        37u32 & 32 == 32,
{
    assert(1u32 | 4 == 5 && 2u32 | 4 == 6 && 1u32 | 0 == 1 && 2u32 | 0 == 2 && 1u32 | 32 == 33
        && 5u32 | 32 == 37 && 33u32 | 32 == 33 && 37u32 | 32 == 37 && 1u32 & 1 == 1 && 5u32 & 1 == 1
        && 33u32 & 1 == 1 && 37u32 & 1 == 1 && 2u32 & 1 == 0 && 6u32 & 1 == 0 && 1u32 & 32 == 0
        && 2u32 & 32 == 0 && 5u32 & 32 == 0 && 6u32 & 32 == 0 && 33u32 & 32 == 32 && 37u32 & 32
        == 32) by (bit_vector);
}

/// Whether an entry is that of a symbol, before the flag of inline sites spreads.
spec fn is_plain(
    entry: SymbolModel,
    name: Seq<char>,
    rva: u32,
    code: bool,
    local: bool,
    inlined: bool,
) -> bool {
    &&& entry.name == encode_utf8(name)
    &&& entry.rva == rva
    &&& entry.flags == (if code {
        1int
    } else {
        2
    }) + (if local {
        4int
    } else {
        0
    }) + (if inlined {
        32int
    } else {
        0
    })
}

proof fn lemma_public(public: PublicFact)
    ensures
        public_entry(public) is Some <==> is_hookable_public(public),
        public_entry(public) matches Some(entry) ==> is_plain(
            entry,
            public.name@,
            public.rva->Some_0,
            public.function,
            false,
            false,
        ),
{
    law_compiler_names_are_skipped(encode_utf8(public.name@));
}

proof fn lemma_record(facts: PdbFacts, record: RecordFact)
    ensures
        record_entry(record, names_inlined(facts)) is Some <==> is_hookable_record(record),
        record_entry(record, names_inlined(facts)) matches Some(entry) ==> is_plain(
            entry,
            record.name@,
            record.rva->Some_0,
            record.code,
            !record.global,
            is_inlined_record(facts, record),
        ),
{
    law_compiler_names_are_skipped(encode_utf8(record.name@));
    lemma_flags();
}

proof fn lemma_publics(publics: Seq<PublicFact>, n: int, entry: SymbolModel)
    requires
        0 <= n <= publics.len(),
    ensures
        public_entries(publics, n).contains(entry) <==> exists|k: int|
            0 <= k < n && public_entry(#[trigger] publics[k]) == Some(entry),
    decreases n,
{
    if n > 0 {
        let before = public_entries(publics, n - 1);
        let all = public_entries(publics, n);
        lemma_publics(publics, n - 1, entry);
        if all.contains(entry) {
            let k = choose|k: int| 0 <= k < all.len() && all[k] == entry;
            if k < before.len() {
                assert(before[k] == entry);
            } else {
                assert(public_entry(publics[n - 1]) == Some(entry));
            }
        }
        if before.contains(entry) {
            let k = choose|k: int| 0 <= k < before.len() && before[k] == entry;
            assert(all[k] == entry);
        }
        if public_entry(publics[n - 1]) == Some(entry) {
            assert(all[before.len() as int] == entry);
        }
    }
}

proof fn lemma_records(
    first: Seq<SymbolModel>,
    records: Seq<RecordFact>,
    inlined: Seq<Seq<u8>>,
    n: int,
    entry: SymbolModel,
)
    requires
        0 <= n <= records.len(),
    ensures
        with_record_entries(first, records, inlined, n).contains(entry) <==> first.contains(entry)
            || exists|k: int|
            0 <= k < n && record_entry(#[trigger] records[k], inlined) == Some(entry),
    decreases n,
{
    if n > 0 {
        let before = with_record_entries(first, records, inlined, n - 1);
        let all = with_record_entries(first, records, inlined, n);
        lemma_records(first, records, inlined, n - 1, entry);
        if all.contains(entry) {
            let k = choose|k: int| 0 <= k < all.len() && all[k] == entry;
            if k < before.len() {
                assert(before[k] == entry);
            } else {
                assert(record_entry(records[n - 1], inlined) == Some(entry));
            }
        }
        if before.contains(entry) {
            let k = choose|k: int| 0 <= k < before.len() && before[k] == entry;
            assert(all[k] == entry);
        }
        if record_entry(records[n - 1], inlined) == Some(entry) {
            assert(all[before.len() as int] == entry);
        }
    }
}

proof fn lemma_entries(facts: PdbFacts, entry: SymbolModel)
    ensures
        pdb_entries(facts).contains(entry) <==> {
            ||| exists|k: int|
                0 <= k < facts.publics@.len() && public_entry(#[trigger] facts.publics@[k])
                    == Some(entry)
            ||| exists|k: int|
                0 <= k < facts.records@.len() && record_entry(
                    #[trigger] facts.records@[k],
                    names_inlined(facts),
                ) == Some(entry)
        },
{
    let first = public_entries(facts.publics@, facts.publics@.len() as int);
    lemma_publics(facts.publics@, facts.publics@.len() as int, entry);
    lemma_records(
        first,
        facts.records@,
        names_inlined(facts),
        facts.records@.len() as int,
        entry,
    );
}

/// An entry has the flag of inline sites exactly where a procedure at its address has.
proof fn lemma_flagged(facts: PdbFacts, rva: u64)
    ensures
        is_flagged(pdb_entries(facts), rva) <==> has_inline_sites(facts, rva),
{
    lemma_flags();
    let entries = pdb_entries(facts);
    let inlined = names_inlined(facts);
    if is_flagged(entries, rva) {
        let i = choose|i: int|
            0 <= i < entries.len() && (#[trigger] entries[i]).rva == rva && entries[i].flags & 32
                != 0;
        let entry = entries[i];
        assert(entries.contains(entry));
        lemma_entries(facts, entry);
        if exists|k: int|
            0 <= k < facts.publics@.len() && public_entry(#[trigger] facts.publics@[k]) == Some(
                entry,
            ) {
            let k = choose|k: int|
                0 <= k < facts.publics@.len() && public_entry(#[trigger] facts.publics@[k])
                    == Some(entry);
            lemma_public(facts.publics@[k]);
        } else {
            let k = choose|k: int|
                0 <= k < facts.records@.len() && record_entry(
                    #[trigger] facts.records@[k],
                    inlined,
                ) == Some(entry);
            lemma_record(facts, facts.records@[k]);
            assert(is_inlined_record(facts, facts.records@[k]));
        }
    }
    if has_inline_sites(facts, rva) {
        let k = choose|k: int|
            0 <= k < facts.records@.len() && #[trigger] is_inlined_record(facts, facts.records@[k])
                && facts.records@[k].rva->Some_0 == rva;
        lemma_record(facts, facts.records@[k]);
        let entry = record_entry(facts.records@[k], inlined)->Some_0;
        lemma_entries(facts, entry);
        let i = choose|i: int| 0 <= i < entries.len() && entries[i] == entry;
        assert(entries[i].rva == rva);
    }
}

/// Whether an entry is that of a symbol.
pub open spec fn is_pdb_entry(
    facts: PdbFacts,
    entry: SymbolModel,
    name: Seq<char>,
    rva: u32,
    code: bool,
    local: bool,
) -> bool {
    &&& entry.name == encode_utf8(name)
    &&& entry.rva == rva
    &&& entry.flags == pdb_flags(facts, code, local, rva as u64)
}

proof fn lemma_spread(
    facts: PdbFacts,
    entry: SymbolModel,
    name: Seq<char>,
    rva: u32,
    code: bool,
    local: bool,
    inlined: bool,
)
    requires
        is_plain(entry, name, rva, code, local, inlined),
        inlined ==> code && has_inline_sites(facts, rva as u64),
    ensures
        is_pdb_entry(facts, with_flag(pdb_entries(facts), entry), name, rva, code, local),
{
    lemma_flags();
    lemma_flagged(facts, rva as u64);
}

proof fn lemma_own_sites(facts: PdbFacts, k: int)
    requires
        0 <= k < facts.records@.len(),
        is_inlined_record(facts, facts.records@[k]),
    ensures
        has_inline_sites(facts, facts.records@[k].rva->Some_0 as u64),
{
}

/// Every public symbol that can be hooked is listed, as a name that can be linked.
pub proof fn law_every_public_symbol_is_listed(data: Seq<u8>, facts: PdbFacts, k: int)
    requires
        pdb_input(data, facts) is Ok,
        0 <= k < facts.publics@.len(),
        is_hookable_public(facts.publics@[k]),
    ensures
        exists|i: int|
            0 <= i < pdb_input(data, facts)->Ok_0.1.len() && is_pdb_entry(
                facts,
                #[trigger] pdb_input(data, facts)->Ok_0.1[i],
                facts.publics@[k].name@,
                facts.publics@[k].rva->Some_0,
                facts.publics@[k].function,
                false,
            ),
{
    let plain = pdb_entries(facts);
    let entries = propagated(plain);
    let public = facts.publics@[k];
    lemma_public(public);
    let entry = public_entry(public)->Some_0;
    lemma_entries(facts, entry);
    let i = choose|i: int| 0 <= i < plain.len() && plain[i] == entry;
    lemma_spread(facts, entry, public.name@, public.rva->Some_0, public.function, false, false);
    assert(pdb_input(data, facts)->Ok_0.1[i] == with_flag(plain, entry));
}

/// Every procedure and data record that can be hooked is listed, as a local one where it is not global.
pub proof fn law_every_record_is_listed(data: Seq<u8>, facts: PdbFacts, k: int)
    requires
        pdb_input(data, facts) is Ok,
        0 <= k < facts.records@.len(),
        is_hookable_record(facts.records@[k]),
    ensures
        exists|i: int|
            0 <= i < pdb_input(data, facts)->Ok_0.1.len() && is_pdb_entry(
                facts,
                #[trigger] pdb_input(data, facts)->Ok_0.1[i],
                facts.records@[k].name@,
                facts.records@[k].rva->Some_0,
                facts.records@[k].code,
                !facts.records@[k].global,
            ),
{
    let plain = pdb_entries(facts);
    let record = facts.records@[k];
    lemma_record(facts, record);
    let entry = record_entry(record, names_inlined(facts))->Some_0;
    lemma_entries(facts, entry);
    let i = choose|i: int| 0 <= i < plain.len() && plain[i] == entry;
    if is_inlined_record(facts, record) {
        lemma_own_sites(facts, k);
    }
    lemma_spread(
        facts,
        entry,
        record.name@,
        record.rva->Some_0,
        record.code,
        !record.global,
        is_inlined_record(facts, record),
    );
    assert(pdb_input(data, facts)->Ok_0.1[i] == with_flag(plain, entry));
}

/// Nothing else is listed.
pub proof fn law_only_pdb_symbols_are_listed(data: Seq<u8>, facts: PdbFacts, i: int)
    requires
        pdb_input(data, facts) is Ok,
        0 <= i < pdb_input(data, facts)->Ok_0.1.len(),
    ensures
        ({
            let e = pdb_input(data, facts)->Ok_0.1[i];
            ||| exists|k: int|
                0 <= k < facts.publics@.len() && #[trigger] is_hookable_public(facts.publics@[k])
                    && is_pdb_entry(
                    facts,
                    e,
                    facts.publics@[k].name@,
                    facts.publics@[k].rva->Some_0,
                    facts.publics@[k].function,
                    false,
                )
            ||| exists|k: int|
                0 <= k < facts.records@.len() && #[trigger] is_hookable_record(facts.records@[k])
                    && is_pdb_entry(
                    facts,
                    e,
                    facts.records@[k].name@,
                    facts.records@[k].rva->Some_0,
                    facts.records@[k].code,
                    !facts.records@[k].global,
                )
        }),
{
    let plain = pdb_entries(facts);
    let entry = plain[i];
    assert(plain.contains(entry));
    lemma_entries(facts, entry);
    if exists|k: int|
        0 <= k < facts.publics@.len() && public_entry(#[trigger] facts.publics@[k]) == Some(entry) {
        let k = choose|k: int|
            0 <= k < facts.publics@.len() && public_entry(#[trigger] facts.publics@[k]) == Some(
                entry,
            );
        let public = facts.publics@[k];
        lemma_public(public);
        lemma_spread(
            facts,
            entry,
            public.name@,
            public.rva->Some_0,
            public.function,
            false,
            false,
        );
        assert(is_hookable_public(facts.publics@[k]));
    } else {
        let k = choose|k: int|
            0 <= k < facts.records@.len() && record_entry(
                #[trigger] facts.records@[k],
                names_inlined(facts),
            ) == Some(entry);
        let record = facts.records@[k];
        lemma_record(facts, record);
        if is_inlined_record(facts, record) {
            lemma_own_sites(facts, k);
        }
        lemma_spread(
            facts,
            entry,
            record.name@,
            record.rva->Some_0,
            record.code,
            !record.global,
            is_inlined_record(facts, record),
        );
        assert(is_hookable_record(facts.records@[k]));
    }
}

/// The build id of a PDB is its GUID and behind it the age that its debug information gives, or else its
/// own, in 4 bytes.
pub proof fn law_pdb_build_id(data: Seq<u8>)
    requires
        build_id_of(data) is Some,
        pdb_identity(data)->Some_0.0.len() == 16,
    ensures
        ({
            let (guid, age, debug_age) = pdb_identity(data)->Some_0;
            let id = build_id_of(data)->Some_0;
            &&& id.len() == 20
            &&& id.subrange(0, 16) == guid
            &&& debug_age is None ==> u32_at(id, 16) == age
            &&& debug_age matches Some(own) ==> u32_at(id, 16) == own
        }),
{
    broadcast use group_field_len;

    let (guid, age, debug_age) = pdb_identity(data)->Some_0;
    let id = build_id_of(data)->Some_0;
    let used = match debug_age {
        Some(own) => own,
        None => age,
    };
    assert(id == guid + le32(used));
    assert(id.subrange(0, 16) =~= guid);
    assert(id.subrange(16, 20) =~= le32(used));
    lemma_u32_at_le(id, 16, used);
}

/// Whether a function has a qualified name: the name of its class, or else its scope, `::` and its own
/// name, or its own name alone.
pub open spec fn is_qualified(facts: InlineeFacts, f: FunctionId, name: Seq<char>) -> bool {
    match (f.parent_class, f.scope) {
        (Some(class), _) => if facts.class_names@.contains_key(class) {
            name == facts.class_names@[class]@ + seq![':', ':'] + f.name@
        } else {
            name == f.name@
        },
        (None, Some(scope)) => if facts.scope_strings@.contains_key(scope) {
            name == facts.scope_strings@[scope]@ + seq![':', ':'] + f.name@
        } else {
            name == f.name@
        },
        (None, None) => name == f.name@,
    }
}

/// The names that are inlined are the qualified names of the functions whose ids are inlined.
pub proof fn law_inlined_names_are_qualified(
    facts: InlineeFacts,
    n: int,
    i: int,
    name: Seq<char>,
)
    requires
        0 <= i < n <= facts.inlinees@.len(),
        facts.functions@.contains_key(facts.inlinees@[i]),
        is_qualified(facts, facts.functions@[facts.inlinees@[i]], name),
    ensures
        inlined_names(facts, n).contains(encode_utf8(name)),
    decreases n,
{
    let all = inlined_names(facts, n);
    let before = inlined_names(facts, n - 1);
    if i < n - 1 {
        law_inlined_names_are_qualified(facts, n - 1, i, name);
        let k = choose|k: int| 0 <= k < before.len() && before[k] == encode_utf8(name);
        assert(all[k] == encode_utf8(name));
    } else {
        reveal_strlit("::");
        assert("::"@ =~= seq![':', ':']);
        assert(qualified(facts, facts.functions@[facts.inlinees@[i]]) =~= name);
        assert(all[before.len() as int] == encode_utf8(name));
    }
}

} // verus!
