//! What the opcodes and the chained pointers of dyld's fixups mean.

use vstd::prelude::*;
use crate::bytes::{c_string, lemma_first_zero, u32_at, u64_at};
use crate::cmd::stub::trie::laws::{lemma_uleb_stands, stands_at};
use crate::cmd::stub::trie::{uleb_bytes, uleb_len};
use crate::text::{shown_text, without_underscore};
use super::chains::{chain_from, chained_target, import_name, ChainedHeader};
use super::fixups::{
    bind_symbol, binds_from, binds_of, rebases_from, spaced, spaced_binds, uleb_read, BindState,
    FixupModel, Segment, TargetModel,
};
use super::format::MachOError;
use super::image::ImageModel;

verus! {

/// Whether a number of 64 bits stands at a position, as unsigned LEB128.
pub open spec fn is_number_at(stream: Seq<u8>, pos: int, value: int) -> bool {
    0 <= pos && 0 <= value <= u64::MAX && stands_at(stream, pos, uleb_bytes(value))
}

proof fn lemma_number(stream: Seq<u8>, pos: int, value: int)
    requires
        is_number_at(stream, pos, value),
    ensures
        uleb_read(stream, pos) == Ok::<(u64, int), MachOError>(
            (value as u64, pos + uleb_len(value)),
        ),
{
    lemma_uleb_stands(stream, pos, value);
}

/// Binds to one symbol at the first address and each further one `step` behind the one before.
pub open spec fn binds_at(address: int, count: int, step: int, symbol: Option<Seq<char>>) -> Seq<
    FixupModel,
> {
    Seq::new(
        count as nat,
        |i: int|
            FixupModel {
                location: (address + i * step) as u64,
                target: TargetModel::Bind(symbol),
            },
    )
}

/// The name of a symbol without one leading underscore; none where it has no bytes.
pub open spec fn is_symbol_of(symbol: Option<Seq<char>>, name: Seq<u8>) -> bool {
    if name.len() == 0 {
        symbol is None
    } else if name[0] == 0x5f {
        symbol == Some(shown_text(name.subrange(1, name.len() as int)))
    } else {
        symbol == Some(shown_text(name))
    }
}

/// `0x40` and a name that a zero byte ends set the symbol.
pub proof fn law_bind_sets_the_symbol(
    stream: Seq<u8>,
    segments: Seq<Segment>,
    state: BindState,
    done: Seq<FixupModel>,
    name: Seq<u8>,
)
    requires
        0 <= state.pos,
        state.pos + 1 + name.len() < stream.len(),
        0x40 <= stream[state.pos] < 0x50,
        stream.subrange(state.pos + 1, state.pos + 1 + name.len()) == name,
        !name.contains(0u8),
        stream[state.pos + 1 + name.len()] == 0,
    ensures
        binds_from(stream, segments, state, done) == binds_from(
            stream,
            segments,
            BindState { pos: state.pos + 2 + name.len(), symbol: name, address: state.address },
            done,
        ),
{
    let rest = stream.subrange(state.pos + 1, stream.len() as int);
    let n = name.len() as int;
    assert forall|j: int| 0 <= j < n implies rest[j] != 0 by {
        assert(stream.subrange(state.pos + 1, state.pos + 1 + n)[j] == rest[j]);
        assert(name.contains(name[j]));
    }
    assert(rest[n] == 0);
    lemma_first_zero(rest, n);
    assert(rest.subrange(0, n) =~= name);
    assert(done + Seq::<FixupModel>::empty() =~= done);
}

/// `0x70` with the number of a segment and an offset sets the address, and `0x80` with a number moves
/// it. The library, the type and the flags of a symbol and the end of a list change neither.
pub proof fn law_bind_moves_the_address(
    stream: Seq<u8>,
    segments: Seq<Segment>,
    state: BindState,
    done: Seq<FixupModel>,
    value: int,
)
    requires
        0 <= state.pos < stream.len(),
    ensures
        ({
            let opcode = stream[state.pos] as int;
            let here = binds_from(stream, segments, state, done);
            let there = |pos: int, address: int| binds_from(
                stream,
                segments,
                BindState { pos, symbol: state.symbol, address: address as u64 },
                done,
            );
            let behind = state.pos + 1 + uleb_len(value);
            &&& opcode < 0x20 || 0x30 <= opcode < 0x40 || 0x50 <= opcode < 0x60 ==> here == there(
                state.pos + 1,
                state.address as int,
            )
            &&& is_number_at(stream, state.pos + 1, value) ==> {
                &&& 0x20 <= opcode < 0x30 ==> here == there(behind, state.address as int)
                &&& 0x70 <= opcode < 0x80 && opcode - 0x70 < segments.len()
                    && segments[opcode - 0x70].vmaddr + value <= u64::MAX ==> here == there(
                    behind,
                    segments[opcode - 0x70].vmaddr + value,
                )
                &&& 0x80 <= opcode < 0x90 && state.address + value <= u64::MAX ==> here == there(
                    behind,
                    state.address + value,
                )
            }
        }),
{
    if is_number_at(stream, state.pos + 1, value) {
        lemma_number(stream, state.pos + 1, value);
    }
    assert(done + Seq::<FixupModel>::empty() =~= done);
}

/// `0x90` binds the pointer at the address and moves behind it; `0xa0` with a number and `0xb0` with a
/// number of pointers skip as much in addition. `0xc0` with two numbers binds as many pointers as the
/// first says and skips what the second says behind each of them.
#[verifier::rlimit(40)]
#[verifier::spinoff_prover]
pub proof fn law_bind_binds(
    stream: Seq<u8>,
    segments: Seq<Segment>,
    state: BindState,
    done: Seq<FixupModel>,
    symbol: Option<Seq<char>>,
    first: int,
    second: int,
)
    requires
        0 <= state.pos < stream.len(),
        is_symbol_of(symbol, state.symbol),
    ensures
        ({
            let opcode = stream[state.pos] as int;
            let here = binds_from(stream, segments, state, done);
            let there = |pos: int, count: int, step: int| binds_from(
                stream,
                segments,
                BindState {
                    pos,
                    symbol: state.symbol,
                    address: (state.address + count * step) as u64,
                },
                done + binds_at(state.address as int, count, step, symbol),
            );
            let middle = state.pos + 1 + uleb_len(first);
            &&& 0x90 <= opcode < 0xa0 && state.address + 8 <= u64::MAX ==> here == there(
                state.pos + 1,
                1,
                8,
            )
            &&& 0xb0 <= opcode < 0xc0 && state.address + 8 + 8 * (opcode - 0xb0) <= u64::MAX
                ==> here == there(state.pos + 1, 1, 8 + 8 * (opcode - 0xb0))
            &&& is_number_at(stream, state.pos + 1, first) ==> {
                &&& 0xa0 <= opcode < 0xb0 && state.address + 8 + first <= u64::MAX ==> here
                    == there(middle, 1, 8 + first)
                &&& 0xc0 <= opcode < 0xd0 && is_number_at(stream, middle, second) && state.address
                    + first * (8 + second) <= u64::MAX ==> here == there(
                    middle + uleb_len(second),
                    first,
                    8 + second,
                )
            }
        }),
{
    let opcode = stream[state.pos] as int;
    let middle = state.pos + 1 + uleb_len(first);
    assert(bind_symbol(state.symbol) == symbol);
    if is_number_at(stream, state.pos + 1, first) {
        lemma_number(stream, state.pos + 1, first);
        if is_number_at(stream, middle, second) {
            lemma_number(stream, middle, second);
        }
    }
    let a = state.address;
    assert(spaced_binds(a, 1, 0, state.symbol) =~= binds_at(a as int, 1, 8, symbol));
    if 0xb0 <= opcode < 0xc0 {
        let skip = (8 * (opcode - 0xb0)) as u64;
        assert(spaced_binds(a, 1, skip, state.symbol) =~= binds_at(
            a as int,
            1,
            8 + skip,
            symbol,
        ));
    }
    if is_number_at(stream, state.pos + 1, first) {
        assert(spaced_binds(a, 1, first as u64, state.symbol) =~= binds_at(
            a as int,
            1,
            8 + first,
            symbol,
        ));
        if is_number_at(stream, middle, second) {
            assert(spaced_binds(a, first as u64, second as u64, state.symbol)
                =~= binds_at(a as int, first, 8 + second, symbol));
        }
    }
}

/// A stream is read from its first byte, with no symbol and the address zero, up to its end.
pub proof fn law_binds_begin_and_end(
    stream: Seq<u8>,
    segments: Seq<Segment>,
    state: BindState,
    done: Seq<FixupModel>,
)
    ensures
        binds_of(stream, segments) == binds_from(
            stream,
            segments,
            BindState { pos: 0, symbol: Seq::empty(), address: 0 },
            Seq::empty(),
        ),
        state.pos >= stream.len() ==> binds_from(stream, segments, state, done) == Ok::<
            Seq<FixupModel>,
            MachOError,
        >(done),
        0 <= state.pos < stream.len() && stream[state.pos] >= 0xd0 ==> binds_from(
            stream,
            segments,
            state,
            done,
        ) is Err,
{
}

/// The first address and each further one `step` behind the one before.
pub open spec fn addresses_at(address: int, count: int, step: int) -> Seq<u64> {
    Seq::new(count as nat, |i: int| (address + i * step) as u64)
}

/// What the opcodes of a rebase stream do: `0x00` ends it, `0x11` names pointers, `0x20` with the number
/// of a segment and an offset sets the address, and `0x30` with a number and `0x40` with a number of
/// pointers move it. `0x50` and `0x60` rebase as many pointers as they say, `0x70` rebases one and
/// skips, and `0x80` with two numbers rebases as many as the first says and skips what the second says
/// behind each.
#[verifier::rlimit(40)]
#[verifier::spinoff_prover]
pub proof fn law_rebase_opcodes(
    stream: Seq<u8>,
    segments: Seq<Segment>,
    pos: int,
    address: u64,
    done: Seq<u64>,
    first: int,
    second: int,
)
    requires
        0 <= pos < stream.len(),
    ensures
        ({
            let opcode = stream[pos] as int;
            let here = rebases_from(stream, segments, pos, address, done);
            let moved = |next: int, to: int| rebases_from(stream, segments, next, to as u64, done);
            let rebased = |next: int, count: int, step: int| rebases_from(
                stream,
                segments,
                next,
                (address + count * step) as u64,
                done + addresses_at(address as int, count, step),
            );
            let low = opcode % 16;
            let middle = pos + 1 + uleb_len(first);
            &&& opcode < 0x10 ==> here == Ok::<Seq<u64>, MachOError>(done)
            &&& opcode == 0x11 ==> here == moved(pos + 1, address as int)
            &&& 0x10 <= opcode < 0x20 && opcode != 0x11 ==> here is Err
            &&& 0x40 <= opcode < 0x50 && address + 8 * low <= u64::MAX ==> here == moved(
                pos + 1,
                address + 8 * low,
            )
            &&& 0x50 <= opcode < 0x60 && address + 8 * low <= u64::MAX ==> here == rebased(
                pos + 1,
                low,
                8,
            )
            &&& opcode >= 0x90 ==> here is Err
            &&& is_number_at(stream, pos + 1, first) ==> {
                &&& 0x20 <= opcode < 0x30 && low < segments.len() && segments[low].vmaddr + first
                    <= u64::MAX ==> here == moved(middle, segments[low].vmaddr + first)
                &&& 0x30 <= opcode < 0x40 && address + first <= u64::MAX ==> here == moved(
                    middle,
                    address + first,
                )
                &&& 0x60 <= opcode < 0x70 && address + 8 * first <= u64::MAX ==> here == rebased(
                    middle,
                    first,
                    8,
                )
                &&& 0x70 <= opcode < 0x80 && address + 8 + first <= u64::MAX ==> here == rebased(
                    middle,
                    1,
                    8 + first,
                )
                &&& 0x80 <= opcode < 0x90 && is_number_at(stream, middle, second) && address + first
                    * (8 + second) <= u64::MAX ==> here == rebased(
                    middle + uleb_len(second),
                    first,
                    8 + second,
                )
            }
        }),
{
    let opcode = stream[pos] as int;
    let low = opcode % 16;
    let middle = pos + 1 + uleb_len(first);
    assert(done + Seq::<u64>::empty() =~= done);
    assert(low * (8 + 0) == 8 * low) by (nonlinear_arith);
    assert(spaced(address, low as u64, 0) =~= addresses_at(address as int, low, 8));
    if is_number_at(stream, pos + 1, first) {
        lemma_number(stream, pos + 1, first);
        assert(first * (8 + 0) == 8 * first) by (nonlinear_arith);
        assert(spaced(address, first as u64, 0) =~= addresses_at(address as int, first, 8));
        assert(spaced(address, 1, first as u64) =~= addresses_at(address as int, 1, 8 + first));
        if is_number_at(stream, middle, second) {
            lemma_number(stream, middle, second);
            assert(spaced(address, first as u64, second as u64) =~= addresses_at(
                address as int,
                first,
                8 + second,
            ));
        }
    }
}

/// A chained pointer that binds is made of the number of an import in 24 bits, an addend in 8, the
/// distance to the next pointer in 12 bits from bit 51 on, and the top bit.
pub proof fn law_chained_bind(
    image: ImageModel,
    blob: Seq<u8>,
    header: ChainedHeader,
    format: u16,
    raw: u64,
    ordinal: int,
    addend: int,
    next: int,
)
    requires
        0 <= ordinal < 0x100_0000,
        0 <= addend < 0x100,
        0 <= next < 0x1000,
        raw == ordinal + addend * 0x100_0000 + next * 0x8_0000_0000_0000 + 0x8000_0000_0000_0000,
    ensures
        chained_target(image, blob, header, format, raw) == Ok::<TargetModel, MachOError>(
            TargetModel::Bind(import_name(blob, header, ordinal)),
        ),
{
    assert(raw % 0x100_0000 == ordinal) by (nonlinear_arith)
        requires
            0 <= ordinal < 0x100_0000,
            raw == ordinal + addend * 0x100_0000 + next * 0x8_0000_0000_0000
                + 0x8000_0000_0000_0000,
    ;
}

/// A chained pointer that rebases is made of an address in 36 bits, its top byte in 8, and the distance
/// to the next pointer in 12 bits from bit 51 on. The address is one of the image in format 2, and
/// counts from its base in format 6.
pub proof fn law_chained_rebase(
    image: ImageModel,
    blob: Seq<u8>,
    header: ChainedHeader,
    format: u16,
    raw: u64,
    target: int,
    top: int,
    next: int,
)
    requires
        format == 2 || format == 6,
        0 <= target < 0x10_0000_0000,
        0 <= top < 0x100,
        0 <= next < 0x1000,
        raw == target + top * 0x10_0000_0000 + next * 0x8_0000_0000_0000,
        format == 6 ==> image.preferred_base + target + top * 0x100_0000_0000_0000 <= u64::MAX,
    ensures
        chained_target(image, blob, header, format, raw) == Ok::<TargetModel, MachOError>(
            TargetModel::Rebase(
                (target + top * 0x100_0000_0000_0000 + if format == 6 {
                    image.preferred_base as int
                } else {
                    0
                }) as u64,
            ),
        ),
{
    assert(raw % 0x10_0000_0000 == target && raw / 0x10_0000_0000 % 0x100 == top && raw
        < 0x8000_0000_0000_0000) by (nonlinear_arith)
        requires
            0 <= target < 0x10_0000_0000,
            0 <= top < 0x100,
            0 <= next < 0x1000,
            raw == target + top * 0x10_0000_0000 + next * 0x8_0000_0000_0000,
    ;
}

/// An import is 4 bytes: the number of a library in 8 bits, whether it is weak in 1, and where its name
/// stands among the symbols in 23. The name ends with a zero byte, and is given without one leading
/// underscore.
pub proof fn law_import_is_named(
    blob: Seq<u8>,
    header: ChainedHeader,
    ordinal: int,
    library: int,
    offset: int,
    name: Seq<u8>,
)
    requires
        header.imports_format == 1,
        0 <= ordinal < header.imports_count,
        header.imports + 4 * ordinal + 4 <= blob.len(),
        0 <= library < 0x200,
        u32_at(blob, header.imports + 4 * ordinal) == library + offset * 0x200,
        0 <= offset,
        header.symbols + offset + name.len() < blob.len(),
        blob.subrange(header.symbols + offset, header.symbols + offset + name.len()) == name,
        blob[header.symbols + offset + name.len()] == 0,
        !name.contains(0u8),
    ensures
        import_name(blob, header, ordinal) == Some(
            shown_text(
                if name.len() > 0 && name[0] == 0x5f {
                    name.subrange(1, name.len() as int)
                } else {
                    name
                },
            ),
        ),
{
    let at = header.symbols + offset;
    let rest = blob.subrange(at, blob.len() as int);
    let n = name.len() as int;
    assert forall|j: int| 0 <= j < n implies rest[j] != 0 by {
        assert(blob.subrange(at, at + n)[j] == rest[j]);
        assert(name.contains(name[j]));
    }
    lemma_first_zero(rest, n);
    assert(rest.subrange(0, n) =~= name);
    assert(c_string(rest) == Some(name));
    assert(without_underscore(name) == if name.len() > 0 && name[0] == 0x5f {
        name.subrange(1, n)
    } else {
        name
    });
}

/// A chain goes on as far as its pointers say: each of them names how many times 4 bytes behind it the
/// next one stands, and none where the chain ends. Every pointer lies in its page.
pub proof fn law_chain_is_followed(
    image: ImageModel,
    blob: Seq<u8>,
    header: ChainedHeader,
    format: u16,
    page_end: u64,
    location: u64,
    done: Seq<FixupModel>,
    raw: u64,
    low: int,
    next: int,
    bind: int,
)
    requires
        image.bytes(location, 8) matches Ok(bytes) && u64_at(bytes, 0) == raw,
        0 <= low < 0x8_0000_0000_0000,
        0 <= next < 0x1000,
        bind == 0 || bind == 1,
        raw == low + next * 0x8_0000_0000_0000 + bind * 0x8000_0000_0000_0000,
        chained_target(image, blob, header, format, raw) is Ok,
    ensures
        ({
            let all = chain_from(image, blob, header, format, page_end, location, done);
            let target = chained_target(image, blob, header, format, raw)->Ok_0;
            let more = done.push(FixupModel { location, target });
            &&& location + 8 > page_end ==> all is Err
            &&& location + 8 <= page_end && next == 0 ==> all == Ok::<Seq<FixupModel>, MachOError>(
                more,
            )
            &&& location + 8 <= page_end && next > 0 && location + 4 * next <= u64::MAX ==> all
                == chain_from(
                image,
                blob,
                header,
                format,
                page_end,
                (location + 4 * next) as u64,
                more,
            )
        }),
{
    assert(raw / 0x8_0000_0000_0000 % 0x1000 == next) by (nonlinear_arith)
        requires
            0 <= low < 0x8_0000_0000_0000,
            0 <= next < 0x1000,
            bind == 0 || bind == 1,
            raw == low + next * 0x8_0000_0000_0000 + bind * 0x8000_0000_0000_0000,
    ;
}

} // verus!
