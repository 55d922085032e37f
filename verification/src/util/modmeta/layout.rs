//! What each record of a metadata section says, byte by byte, and how records follow one another.

use vstd::prelude::*;
use vstd::utf8::*;
use crate::bytes::{all_zero, u16_at, u32_at, u64_at};
use crate::util::msvc::{materialized, TargetView};
use crate::util::objfile::ImageArch;
use super::record::{
    bound_at, cstr_of, record_of, slot_of_pointer, two_strings, HookView, LookupView, MetaError,
    RecordView, ServiceView,
};
use super::section::{
    header_at, no_records, records_from, section_records, size_fits, with_record, RecordsView,
};

verus! {

/// Whether a text stands at an offset, ended by a zero byte.
pub open spec fn is_text_at(bytes: Seq<u8>, at: int, text: Seq<char>) -> bool {
    let stored = encode_utf8(text);
    &&& 0 <= at
    &&& at + stored.len() < bytes.len()
    &&& bytes.subrange(at, at + stored.len()) == stored
    &&& !stored.contains(0u8)
    &&& bytes[at + stored.len()] == 0
}

/// Where the bytes behind a text begin.
pub open spec fn behind(at: int, text: Seq<char>) -> int {
    at + encode_utf8(text).len() + 1
}

/// Whether the loader binds a name at an address: the first that it binds there.
pub open spec fn is_bound(binds: Seq<(u64, Seq<char>)>, at: int, name: Seq<char>) -> bool {
    exists|i: int|
        0 <= i < binds.len() && #[trigger] binds[i].0 == at && binds[i].1 == name && forall|k: int|
            0 <= k < i ==> (#[trigger] binds[k]).0 != at
}

/// Whether the loader binds nothing at an address.
pub open spec fn is_unbound(binds: Seq<(u64, Seq<char>)>, at: int) -> bool {
    forall|i: int| 0 <= i < binds.len() ==> (#[trigger] binds[i]).0 != at
}

/// Whether a section is one record of a kind, which its length fits.
pub open spec fn is_record(section: Seq<u8>, kind: u8, flags: u8) -> bool {
    &&& 8 <= section.len() <= 0xffff
    &&& section.len() % 8 == 0
    &&& u16_at(section, 0) == section.len()
    &&& section[2] == kind
    &&& section[3] == flags
}

/// What a section says that holds one record and no header.
pub open spec fn one_record(
    imports: Seq<ServiceView>,
    exports: Seq<ServiceView>,
    hooks: Seq<HookView>,
) -> RecordsView {
    RecordsView { headers: 0, abi_version: 0, imports, exports, hooks }
}

proof fn lemma_text(bytes: Seq<u8>, at: int, text: Seq<char>, offset: usize)
    requires
        is_text_at(bytes, at, text),
    ensures
        cstr_of(bytes.subrange(at, bytes.len() as int), offset) == Ok::<
            (Seq<char>, int),
            MetaError,
        >((text, behind(at, text) - at)),
{
    let stored = encode_utf8(text);
    let rest = bytes.subrange(at, bytes.len() as int);
    let n = stored.len() as int;
    assert(rest[n] == 0u8);
    assert(rest.contains(0u8));
    rest.index_of_first_ensures(0u8);
    let found = rest.index_of_first(0u8)->Some_0;
    if found < n {
        assert(bytes.subrange(at, at + n)[found] == rest[found]);
        assert(stored[found] == 0u8);
        assert(false);
    }
    assert(found == n);
    assert(rest.subrange(0, n) =~= stored);
    encode_utf8_valid_utf8(text);
    encode_utf8_decode_utf8(text);
}

proof fn lemma_two_texts(
    bytes: Seq<u8>,
    at: int,
    first: Seq<char>,
    second: Seq<char>,
    offset: usize,
)
    requires
        is_text_at(bytes, at, first),
        is_text_at(bytes, behind(at, first), second),
    ensures
        two_strings(bytes.subrange(at, bytes.len() as int), offset) == Ok::<
            (Seq<char>, Seq<char>),
            MetaError,
        >((first, second)),
{
    lemma_text(bytes, at, first, offset);
    lemma_text(bytes, behind(at, first), second, offset);
    let rest = bytes.subrange(at, bytes.len() as int);
    let end = behind(at, first) - at;
    assert(rest.subrange(end, rest.len() as int) =~= bytes.subrange(
        behind(at, first),
        bytes.len() as int,
    ));
}

proof fn lemma_bound(binds: Seq<(u64, Seq<char>)>, address: u64, i: int)
    requires
        0 <= i <= binds.len(),
        forall|k: int| 0 <= k < i ==> (#[trigger] binds[k]).0 != address,
    ensures
        bound_at(binds, address, i) is None <==> is_unbound(binds, address as int),
        bound_at(binds, address, i) matches Some(name) ==> is_bound(binds, address as int, name),
        forall|name: Seq<char>| #[trigger]
            is_bound(binds, address as int, name) ==> bound_at(binds, address, i) == Some(name),
    decreases binds.len() - i,
{
    if i < binds.len() && binds[i].0 != address {
        lemma_bound(binds, address, i + 1);
    } else if i < binds.len() {
        assert(is_bound(binds, address as int, binds[i].1));
        assert forall|name: Seq<char>| #[trigger] is_bound(binds, address as int, name) implies name
            == binds[i].1 by {
            let k = choose|k: int|
                0 <= k < binds.len() && #[trigger] binds[k].0 == address && binds[k].1 == name
                    && forall|j: int| 0 <= j < k ==> (#[trigger] binds[j]).0 != address;
            assert(k == i);
        }
    }
}

/// A section that is one record says what the record says.
proof fn lemma_one_record(section: Seq<u8>, lookup: LookupView, address: int, kind: u8, flags: u8)
    requires
        is_record(section, kind, flags),
    ensures
        records_from(section, lookup, address, 0, no_records()) == match record_of(
            section,
            header_at(section, 0),
            lookup,
            address,
            0,
        ) {
            Err(e) => Err(e),
            Ok(record) => Ok::<RecordsView, MetaError>(with_record(no_records(), record)),
        },
{
    reveal_with_fuel(records_from, 3);
    assert(section.subrange(0, section.len() as int) =~= section);
    let first = section.subrange(0, 8);
    assert(first[0] == section[0] && first[1] == section[1]);
    if all_zero(first) {
        reveal(u16_at);
        assert(false);
    }
}

/// A header record gives the version at its offset 4, as the only thing that it says.
pub proof fn law_header_record(section: Seq<u8>, lookup: LookupView, address: int)
    requires
        is_record(section, 1, 0),
    ensures
        section_records(section, lookup, address) == Ok::<RecordsView, MetaError>(
            RecordsView {
                headers: 1,
                abi_version: u32_at(section, 4),
                imports: Seq::empty(),
                exports: Seq::empty(),
                hooks: Seq::empty(),
            },
        ),
{
    lemma_one_record(section, lookup, address, 1, 0);
    assert(0u8 & !0u8 == 0) by (bit_vector);
}

/// An import record gives its service: the id is the text at offset 16, which is not empty and ends
/// within 64 bytes, the versions stand at 4 and 6, and flag 1 makes it optional. An export record is
/// laid out alike, with flag 1 for a deferred one.
pub proof fn law_service_record(
    section: Seq<u8>,
    lookup: LookupView,
    address: int,
    kind: u8,
    flag: bool,
    service_id: Seq<char>,
)
    requires
        kind == 2 || kind == 3,
        is_record(
            section,
            kind,
            if flag {
                1
            } else {
                0
            },
        ),
        section.len() >= 80,
        service_id.len() > 0,
        is_text_at(section, 16, service_id),
        behind(16, service_id) <= 80,
    ensures
        ({
            let service = ServiceView {
                service_id,
                major: u16_at(section, 4),
                minor: u16_at(section, 6),
                flag,
            };
            records_from(section, lookup, address, 0, no_records()) == Ok::<
                RecordsView,
                MetaError,
            >(
                if kind == 2 {
                    one_record(seq![service], Seq::empty(), Seq::empty())
                } else {
                    one_record(Seq::empty(), seq![service], Seq::empty())
                },
            )
        }),
{
    lemma_one_record(
        section,
        lookup,
        address,
        kind,
        if flag {
            1
        } else {
            0
        },
    );
    assert(0u8 & !1u8 == 0 && 1u8 & !1u8 == 0 && 0u8 & 1u8 == 0 && 1u8 & 1u8 == 1) by (bit_vector);
    let field = section.subrange(16, 80);
    let stored = encode_utf8(service_id);
    assert(field.subrange(0, stored.len() as int) =~= section.subrange(16, 16 + stored.len() as int));
    assert(is_text_at(field, 0, service_id));
    assert(field.subrange(0, 64) =~= field);
    lemma_text(field, 0, service_id, 0);
    if stored.len() == 0 {
        encode_utf8_decode_utf8(service_id);
        assert(decode_utf8(stored) == service_id);
        assert(stored =~= Seq::empty());
        assert(decode_utf8(Seq::<u8>::empty()).len() == 0);
        assert(false);
    }
    let empty = Seq::<ServiceView>::empty();
    let service = ServiceView {
        service_id,
        major: u16_at(section, 4),
        minor: u16_at(section, 6),
        flag,
    };
    assert(empty.push(service) =~= seq![service]);
}

/// A function hook record gives the name that is bound at the address of its field 8, or none where
/// nothing is bound there.
pub proof fn law_function_hook_record(
    section: Seq<u8>,
    lookup: LookupView,
    address: int,
    symbol: Option<Seq<char>>,
)
    requires
        is_record(section, 4, 0),
        section.len() >= 24,
        0 <= address <= u64::MAX - 8,
        match symbol {
            Some(name) => is_bound(lookup.binds, address + 8, name),
            None => is_unbound(lookup.binds, address + 8),
        },
    ensures
        records_from(section, lookup, address, 0, no_records()) == Ok::<RecordsView, MetaError>(
            one_record(Seq::empty(), Seq::empty(), seq![HookView::Fn { symbol }]),
        ),
{
    lemma_one_record(section, lookup, address, 4, 0);
    assert(0u8 & !0u8 == 0) by (bit_vector);
    lemma_bound(lookup.binds, (address + 8) as u64, 0);
    assert(Seq::<HookView>::empty().push(HookView::Fn { symbol }) =~= seq![HookView::Fn { symbol }]);
}

/// Whether a member pointer of two words stands for a slot of the vtable. On ARM the second word is 1
/// then and the first is the slot; elsewhere the first is the slot plus 1 and the second is 0. PE
/// images have no such pointers.
pub open spec fn is_slot_pointer(
    pe: bool,
    arch: ImageArch,
    word0: u64,
    word1: u64,
    slot: u64,
) -> bool {
    &&& !pe
    &&& if arch == ImageArch::Aarch64 || arch == ImageArch::Arm {
        word1 == 1 && word0 == slot
    } else {
        word1 == 0 && word0 == slot + 1 && slot % 2 == 0
    }
}

/// A member hook record gives the two texts that stand from offset 32 on. Where a name is bound at the
/// address of its field 8, the pointer to the member, that is its symbol and it has no slot. Where
/// none is, it has no symbol, and the slot that the two words of the pointer stand for, if any.
pub proof fn law_member_hook_record(
    section: Seq<u8>,
    lookup: LookupView,
    address: int,
    vtable: Seq<char>,
    display: Seq<char>,
)
    requires
        is_record(section, 5, 0),
        section.len() >= 32,
        0 <= address <= u64::MAX - 8,
        is_text_at(section, 32, vtable),
        is_text_at(section, behind(32, vtable), display),
    ensures
        ({
            let read = records_from(section, lookup, address, 0, no_records());
            let hook = |symbol: Option<Seq<char>>, virtual_slot: Option<u64>|
                Ok::<RecordsView, MetaError>(
                    one_record(
                        Seq::empty(),
                        Seq::empty(),
                        seq![HookView::Mem { vtable, display, symbol, virtual_slot }],
                    ),
                );
            &&& forall|name: Seq<char>| #[trigger]
                is_bound(lookup.binds, address + 8, name) ==> read == hook(Some(name), None)
            &&& is_unbound(lookup.binds, address + 8) ==> {
                let word0 = u64_at(section, 8);
                let word1 = u64_at(section, 16);
                &&& forall|slot: u64| #[trigger]
                    is_slot_pointer(lookup.image.pe, lookup.image.arch, word0, word1, slot) ==> read
                        == hook(None, Some(slot))
                &&& (forall|slot: u64| !#[trigger]
                    is_slot_pointer(lookup.image.pe, lookup.image.arch, word0, word1, slot))
                    ==> read == hook(None, None)
            }
        }),
{
    lemma_one_record(section, lookup, address, 5, 0);
    assert(0u8 & !0u8 == 0) by (bit_vector);
    lemma_bound(lookup.binds, (address + 8) as u64, 0);
    lemma_two_texts(section, 32, vtable, display, 0);
    let word0 = u64_at(section, 8);
    let word1 = u64_at(section, 16);
    let slot = slot_of_pointer(lookup.image.pe, lookup.image.arch, word0, word1);
    if slot is Some {
        assert(is_slot_pointer(lookup.image.pe, lookup.image.arch, word0, word1, slot->Some_0));
    }
    let none = Seq::<HookView>::empty();
    assert forall|hook: HookView| #[trigger] none.push(hook) =~= seq![hook] by {}
}

/// An extended member hook record gives the two texts that stand from offset 24 on, and the target
/// that the code at the address in its field 8 stores. Its field 4, the size of the pointer, is 17 to
/// 24; with another size it is refused.
pub proof fn law_extended_hook_record(
    section: Seq<u8>,
    lookup: LookupView,
    address: int,
    vtable: Seq<char>,
    display: Seq<char>,
)
    requires
        is_record(section, 7, 0),
        section.len() >= 24,
        is_text_at(section, 24, vtable),
        is_text_at(section, behind(24, vtable), display),
    ensures
        ({
            let read = records_from(section, lookup, address, 0, no_records());
            let size = u32_at(section, 4);
            let target = materialized(lookup.image, lookup.slots, u64_at(section, 8));
            &&& size <= 16 || size >= 25 ==> read == Err::<RecordsView, MetaError>(
                MetaError::BadPointerSize(0, size),
            )
            &&& 16 < size < 25 ==> read == Ok::<RecordsView, MetaError>(
                one_record(
                    Seq::empty(),
                    Seq::empty(),
                    seq![
                        HookView::Mem {
                            vtable,
                            display,
                            symbol: match target {
                                Some(TargetView::Symbol(name)) => Some(name),
                                _ => None,
                            },
                            virtual_slot: match target {
                                Some(TargetView::VirtualSlot(slot)) => Some(slot),
                                _ => None,
                            },
                        },
                    ],
                ),
            )
        }),
{
    lemma_one_record(section, lookup, address, 7, 0);
    assert(0u8 & !0u8 == 0) by (bit_vector);
    lemma_two_texts(section, 24, vtable, display, 0);
    let none = Seq::<HookView>::empty();
    assert forall|hook: HookView| #[trigger] none.push(hook) =~= seq![hook] by {}
}

/// A named hook record gives the text that stands at offset 16.
pub proof fn law_named_hook_record(
    section: Seq<u8>,
    lookup: LookupView,
    address: int,
    name: Seq<char>,
)
    requires
        is_record(section, 6, 0),
        section.len() >= 16,
        is_text_at(section, 16, name),
    ensures
        records_from(section, lookup, address, 0, no_records()) == Ok::<RecordsView, MetaError>(
            one_record(Seq::empty(), Seq::empty(), seq![HookView::Name { name }]),
        ),
{
    lemma_one_record(section, lookup, address, 6, 0);
    assert(0u8 & !0u8 == 0) by (bit_vector);
    lemma_text(section, 16, name, 0);
    assert(Seq::<HookView>::empty().push(HookView::Name { name }) =~= seq![HookView::Name { name }]);
}

/// Padding says nothing, and neither does a record of a kind that is not known. A record that has flags
/// that its kind does not have is refused: only imports and exports have one, flag 1.
pub proof fn law_other_records(
    section: Seq<u8>,
    lookup: LookupView,
    address: int,
    kind: u8,
    flags: u8,
)
    requires
        is_record(section, kind, flags),
    ensures
        ({
            let read = records_from(section, lookup, address, 0, no_records());
            &&& kind > 7 || (kind == 0 && flags == 0) ==> read == Ok::<RecordsView, MetaError>(
                one_record(Seq::empty(), Seq::empty(), Seq::empty()),
            )
            &&& kind <= 7 && kind != 2 && kind != 3 && flags != 0 ==> read == Err::<
                RecordsView,
                MetaError,
            >(MetaError::BadFlags(0, kind, flags))
            &&& (kind == 2 || kind == 3) && flags >= 2 ==> read == Err::<RecordsView, MetaError>(
                MetaError::BadFlags(0, kind, (flags - flags % 2) as u8),
            )
        }),
{
    lemma_one_record(section, lookup, address, kind, flags);
    assert(flags & !0u8 == flags && flags & !1u8 == flags - flags % 2) by (bit_vector);
}

/// A record that is shorter than its kind is refused: 80 bytes for imports and exports, 24 for function
/// hooks, 32 for member hooks, 24 for extended ones and 16 for named ones.
pub proof fn law_short_records_are_refused(
    section: Seq<u8>,
    lookup: LookupView,
    address: int,
    kind: u8,
)
    requires
        is_record(section, kind, 0),
        2 <= kind <= 7,
        section.len() < (if kind <= 3 {
            80int
        } else if kind == 5 {
            32
        } else if kind == 6 {
            16
        } else {
            24
        }),
    ensures
        records_from(section, lookup, address, 0, no_records()) == Err::<RecordsView, MetaError>(
            MetaError::Truncated(0),
        ),
{
    lemma_one_record(section, lookup, address, kind, 0);
    assert(0u8 & !0u8 == 0 && 0u8 & !1u8 == 0) by (bit_vector);
}

/// What two lists of records say together.
pub open spec fn joined(a: RecordsView, b: RecordsView) -> RecordsView {
    RecordsView {
        headers: a.headers + b.headers,
        abi_version: if b.headers > 0 {
            b.abi_version
        } else {
            a.abi_version
        },
        imports: a.imports + b.imports,
        exports: a.exports + b.exports,
        hooks: a.hooks + b.hooks,
    }
}

proof fn lemma_joined_with(a: RecordsView, b: RecordsView, record: RecordView)
    requires
        b.headers >= 0,
    ensures
        with_record(joined(a, b), record) == joined(a, with_record(b, record)),
{
    let left = with_record(joined(a, b), record);
    let right = joined(a, with_record(b, record));
    assert(left.imports =~= right.imports);
    assert(left.exports =~= right.exports);
    assert(left.hooks =~= right.hooks);
}

/// Where a record is read, it is read the same wherever in its section it stands.
proof fn lemma_record_anywhere(
    record: Seq<u8>,
    lookup: LookupView,
    address: int,
    a: usize,
    b: usize,
)
    ensures
        record_of(record, header_at(record, 0), lookup, address, a) is Ok ==> record_of(
            record,
            header_at(record, 0),
            lookup,
            address,
            b,
        ) == record_of(record, header_at(record, 0), lookup, address, a),
{
}

proof fn lemma_header_moved(section: Seq<u8>, offset: int)
    requires
        0 <= offset,
        offset + 8 <= section.len(),
        size_fits(header_at(section, offset).size as int, section.len() - offset),
    ensures
        header_at(
            section.subrange(offset, offset + header_at(section, offset).size),
            0,
        ) == header_at(section, offset),
{
    let record = section.subrange(offset, offset + header_at(section, offset).size);
    reveal(u16_at);
    assert(record[0] == section[offset] && record[1] == section[offset + 1]);
}

/// Reading on after other records gives those records and the further ones.
proof fn lemma_read_after(
    section: Seq<u8>,
    lookup: LookupView,
    address: int,
    offset: int,
    a: RecordsView,
    b: RecordsView,
)
    requires
        0 <= offset,
        b.headers >= 0,
        records_from(section, lookup, address, offset, b) is Ok,
    ensures
        records_from(section, lookup, address, offset, joined(a, b)) == Ok::<
            RecordsView,
            MetaError,
        >(joined(a, records_from(section, lookup, address, offset, b)->Ok_0)),
    decreases section.len() - offset,
{
    let left = section.len() - offset;
    if left >= 8 {
        if all_zero(section.subrange(offset, offset + 8)) {
            lemma_read_after(section, lookup, address, offset + 8, a, b);
        } else {
            let header = header_at(section, offset);
            let record = record_of(
                section.subrange(offset, offset + header.size),
                header,
                lookup,
                address + offset,
                offset as usize,
            )->Ok_0;
            lemma_joined_with(a, b, record);
            lemma_read_after(
                section,
                lookup,
                address,
                offset + header.size,
                a,
                with_record(b, record),
            );
        }
    }
}

/// The records of the first part of a section are read first.
proof fn lemma_read_front(
    front: Seq<u8>,
    rest: Seq<u8>,
    lookup: LookupView,
    address: int,
    offset: int,
    a: RecordsView,
)
    requires
        0 <= offset <= front.len(),
        front.len() % 8 == 0,
        offset % 8 == 0,
        records_from(front, lookup, address, offset, a) is Ok,
    ensures
        records_from(front + rest, lookup, address, offset, a) == records_from(
            front + rest,
            lookup,
            address,
            front.len() as int,
            records_from(front, lookup, address, offset, a)->Ok_0,
        ),
    decreases front.len() - offset,
{
    let whole = front + rest;
    if offset < front.len() {
        assert(front.len() - offset >= 8);
        assert(whole.subrange(offset, offset + 8) =~= front.subrange(offset, offset + 8));
        if all_zero(front.subrange(offset, offset + 8)) {
            lemma_read_front(front, rest, lookup, address, offset + 8, a);
        } else {
            let header = header_at(front, offset);
            reveal(u16_at);
            assert(header_at(whole, offset) == header);
            assert(whole.subrange(offset, offset + header.size) =~= front.subrange(
                offset,
                offset + header.size,
            ));
            let record = record_of(
                front.subrange(offset, offset + header.size),
                header,
                lookup,
                address + offset,
                offset as usize,
            )->Ok_0;
            lemma_read_front(
                front,
                rest,
                lookup,
                address,
                offset + header.size,
                with_record(a, record),
            );
        }
    }
}

/// The records of the second part of a section are read as in a section of their own, at its address.
proof fn lemma_read_rest(
    front: Seq<u8>,
    rest: Seq<u8>,
    lookup: LookupView,
    address: int,
    offset: int,
    a: RecordsView,
)
    requires
        0 <= offset,
        records_from(rest, lookup, address + front.len(), offset, a) is Ok,
    ensures
        records_from(front + rest, lookup, address, front.len() + offset, a) == records_from(
            rest,
            lookup,
            address + front.len(),
            offset,
            a,
        ),
    decreases rest.len() - offset,
{
    let whole = front + rest;
    let at = front.len() + offset;
    let left = rest.len() - offset;
    if 0 < left < 8 {
        assert(whole.subrange(at, whole.len() as int) =~= rest.subrange(offset, rest.len() as int));
    } else if left >= 8 {
        assert(whole.subrange(at, at + 8) =~= rest.subrange(offset, offset + 8));
        if all_zero(rest.subrange(offset, offset + 8)) {
            lemma_read_rest(front, rest, lookup, address, offset + 8, a);
        } else {
            let header = header_at(rest, offset);
            reveal(u16_at);
            assert(header_at(whole, at) == header);
            let bytes = rest.subrange(offset, offset + header.size);
            assert(whole.subrange(at, at + header.size) =~= bytes);
            lemma_header_moved(rest, offset);
            lemma_record_anywhere(
                bytes,
                lookup,
                address + at,
                offset as usize,
                at as usize,
            );
            let record = record_of(
                bytes,
                header,
                lookup,
                address + front.len() + offset,
                offset as usize,
            )->Ok_0;
            assert(address + front.len() + offset == address + at);
            lemma_read_rest(
                front,
                rest,
                lookup,
                address,
                offset + header.size,
                with_record(a, record),
            );
        }
    }
}

/// Records say the same wherever they stand: what two sections say, the second one at the end of the
/// first, they say as one section, in the same order.
pub proof fn law_sections_join(front: Seq<u8>, rest: Seq<u8>, lookup: LookupView, address: int)
    requires
        front.len() % 8 == 0,
        records_from(front, lookup, address, 0, no_records()) is Ok,
        records_from(rest, lookup, address + front.len(), 0, no_records()) is Ok,
    ensures
        records_from(front + rest, lookup, address, 0, no_records()) == Ok::<
            RecordsView,
            MetaError,
        >(
            joined(
                records_from(front, lookup, address, 0, no_records())->Ok_0,
                records_from(rest, lookup, address + front.len(), 0, no_records())->Ok_0,
            ),
        ),
{
    let a = records_from(front, lookup, address, 0, no_records())->Ok_0;
    lemma_read_front(front, rest, lookup, address, 0, no_records());
    assert(joined(a, no_records()).imports =~= a.imports);
    assert(joined(a, no_records()).exports =~= a.exports);
    assert(joined(a, no_records()).hooks =~= a.hooks);
    assert(joined(a, no_records()) == a);
    lemma_read_after(rest, lookup, address + front.len(), 0, a, no_records());
    lemma_read_rest(front, rest, lookup, address, 0, a);
}

/// Zero bytes say nothing.
pub proof fn law_zeros_say_nothing(
    section: Seq<u8>,
    lookup: LookupView,
    address: int,
    offset: int,
    a: RecordsView,
)
    requires
        0 <= offset,
        all_zero(section),
    ensures
        records_from(section, lookup, address, offset, a) == Ok::<RecordsView, MetaError>(a),
    decreases section.len() - offset,
{
    let left = section.len() - offset;
    if 0 < left < 8 {
        assert(all_zero(section.subrange(offset, section.len() as int)));
    } else if left >= 8 {
        assert(all_zero(section.subrange(offset, offset + 8)));
        law_zeros_say_nothing(section, lookup, address, offset + 8, a);
    }
}

/// A section is read exactly where its records are read and one of them, no more, is a header.
pub proof fn law_section_has_one_header(section: Seq<u8>, lookup: LookupView, address: int)
    ensures
        section_records(section, lookup, address) matches Ok(records) ==> records.headers == 1
            && records_from(section, lookup, address, 0, no_records()) == Ok::<
            RecordsView,
            MetaError,
        >(records),
        records_from(section, lookup, address, 0, no_records()) matches Ok(records) ==> (
        section_records(section, lookup, address) is Ok <==> records.headers == 1),
{
}

} // verus!
