//! Dyld fixups and the opcode streams that classic images keep them in.

use vstd::prelude::*;
use crate::bytes::{c_string, find_zero};
use crate::text::{shown_text, symbol_string, without_underscore};
use super::format::MachOError;

verus! {

/// A segment of an image.
#[derive(Clone, Debug)]
pub struct Segment {
    pub vmaddr: u64,
    pub vmsize: u64,
    pub fileoff: u64,
    pub filesize: u64,
    pub max_prot: u32,
    pub init_prot: u32,
    pub name: [u8; 16],
}

/// What dyld writes to a location: an address inside the image, or a symbol of another one.
#[derive(Clone, Debug, PartialEq, Eq)]
pub enum FixupTarget {
    Rebase(u64),
    Bind(Option<String>),
}

/// A location that dyld fills in.
#[derive(Clone, Debug, PartialEq, Eq)]
pub struct Fixup {
    pub location: u64,
    pub target: FixupTarget,
}

/// The target of a fixup, its symbol as a sequence of characters.
pub enum TargetModel {
    Rebase(u64),
    Bind(Option<Seq<char>>),
}

/// A fixup, its symbol as a sequence of characters.
pub struct FixupModel {
    pub location: u64,
    pub target: TargetModel,
}

impl View for FixupTarget {
    type V = TargetModel;

    open spec fn view(&self) -> TargetModel {
        match self {
            FixupTarget::Rebase(target) => TargetModel::Rebase(*target),
            FixupTarget::Bind(None) => TargetModel::Bind(None),
            FixupTarget::Bind(Some(symbol)) => TargetModel::Bind(Some(symbol@)),
        }
    }
}

impl View for Fixup {
    type V = FixupModel;

    open spec fn view(&self) -> FixupModel {
        FixupModel { location: self.location, target: self.target@ }
    }
}

/// The models of a list of fixups.
pub open spec fn fixup_models(fixups: Seq<Fixup>) -> Seq<FixupModel> {
    Seq::new(fixups.len(), |i: int| fixups[i]@)
}

/// Bytes that an unsigned LEB128 number of 64 bits takes at most.
pub const ULEB_LIMIT: u32 = 10;

/// The unsigned LEB128 number at `pos`, seven bits to a byte and the lowest first, and the position
/// behind it. At most `left` bytes may be read.
pub open spec fn uleb_at(s: Seq<u8>, pos: int, left: int) -> Result<(int, int), MachOError>
    decreases left,
{
    if pos >= s.len() {
        Err(MachOError::TruncatedUleb)
    } else if s[pos] < 128 {
        Ok((s[pos] as int, pos + 1))
    } else if left <= 1 {
        Err(MachOError::UlebOverflow)
    } else {
        match uleb_at(s, pos + 1, left - 1) {
            Err(e) => Err(e),
            Ok((rest, end)) => Ok((s[pos] % 128 + 128 * rest, end)),
        }
    }
}

/// The number that reading an unsigned LEB128 field at `pos` gives, and the position behind it.
/// Bits that do not fit 64 are dropped.
pub open spec fn uleb_read(s: Seq<u8>, pos: int) -> Result<(u64, int), MachOError> {
    match uleb_at(s, pos, ULEB_LIMIT as int) {
        Err(e) => Err(e),
        Ok((v, end)) => Ok(((v % 0x1_0000_0000_0000_0000) as u64, end)),
    }
}

/// A number that was read ends behind the position where it began.
pub proof fn lemma_uleb_end(s: Seq<u8>, pos: int, left: int)
    requires
        0 <= pos,
    ensures
        uleb_at(s, pos, left) matches Ok((v, end)) ==> pos < end <= s.len() && 0 <= v,
    decreases left,
{
    if left > 1 && pos < s.len() && s[pos] >= 128 {
        lemma_uleb_end(s, pos + 1, left - 1);
    }
}

/// One more group of seven bits, once the rest was cut to 64 bits.
proof fn lemma_uleb_step(group: int, full: int)
    requires
        0 <= group < 128,
        0 <= full,
    ensures
        group + 128 * ((full % 0x1_0000_0000_0000_0000) % 0x200_0000_0000_0000) == (group + 128
            * full) % 0x1_0000_0000_0000_0000,
{
    let q = full / 0x200_0000_0000_0000;
    let r = full % 0x200_0000_0000_0000;
    assert(full == 0x200_0000_0000_0000 * q + r);
    assert((full % 0x1_0000_0000_0000_0000) % 0x200_0000_0000_0000 == r);
    assert(group + 128 * full == 0x1_0000_0000_0000_0000 * q + (128 * r + group));
    assert(0 <= 128 * r + group < 0x1_0000_0000_0000_0000);
}

/// Where reading an unsigned LEB128 number at `pos` stops: behind the last byte that was read.
pub open spec fn uleb_stop(s: Seq<u8>, pos: int, left: int) -> int
    decreases left,
{
    if pos >= s.len() {
        pos
    } else if s[pos] < 128 || left <= 1 {
        pos + 1
    } else {
        uleb_stop(s, pos + 1, left - 1)
    }
}

/// Read the rest of an unsigned LEB128 number; also gives the position where reading stops.
fn read_uleb_rest(stream: &[u8], pos: usize, left: u32) -> (r: (Result<u64, MachOError>, usize))
    requires
        1 <= left,
    ensures
        r.1 == uleb_stop(stream@, pos as int, left as int),
        match r.0 {
            Ok(v) => uleb_at(stream@, pos as int, left as int) matches Ok((full, e)) && v == full
                % 0x1_0000_0000_0000_0000 && e == r.1 && pos < r.1 <= stream@.len(),
            Err(e) => uleb_at(stream@, pos as int, left as int) == Err::<(int, int), MachOError>(e),
        },
    decreases left,
{
    if pos >= stream.len() {
        return (Err(MachOError::TruncatedUleb), pos);
    }
    let byte: u8 = stream[pos];
    if byte < 128 {
        return (Ok(byte as u64), pos + 1);
    }
    if left <= 1 {
        return (Err(MachOError::UlebOverflow), pos + 1);
    }
    let (rest, end) = read_uleb_rest(stream, pos + 1, left - 1);
    match rest {
        Err(e) => (Err(e), end),
        Ok(rest) => {
            let value: u64 = (byte % 128) as u64 + 128 * (rest % 0x200_0000_0000_0000);
            proof {
                let full = uleb_at(stream@, pos + 1, left - 1)->Ok_0.0;
                lemma_uleb_end(stream@, pos + 1, left - 1);
                lemma_uleb_step((byte % 128) as int, full);
            }
            (Ok(value), end)
        },
    }
}

/// Read an unsigned LEB128 number and move `pos` behind what was read.
pub fn read_uleb(stream: &[u8], pos: &mut usize) -> (r: Result<u64, MachOError>)
    ensures
        *final(pos) == uleb_stop(stream@, *old(pos) as int, ULEB_LIMIT as int),
        match r {
            Ok(v) => uleb_read(stream@, *old(pos) as int) == Ok::<(u64, int), MachOError>(
                (v, *final(pos) as int),
            ) && *old(pos) < *final(pos) <= stream@.len(),
            Err(e) => uleb_read(stream@, *old(pos) as int) == Err::<(u64, int), MachOError>(e),
        },
{
    let (value, end) = read_uleb_rest(stream, *pos, ULEB_LIMIT);
    *pos = end;
    value
}

/// `count` addresses from `address` on, each `8 + skip` behind the one before.
pub open spec fn spaced(address: u64, count: u64, skip: u64) -> Seq<u64> {
    Seq::new(count as nat, |i: int| (address + i * (8 + skip)) as u64)
}

/// The address behind `count` pointers that stand `8 + skip` apart.
pub open spec fn spaced_end(address: u64, count: u64, skip: u64) -> int {
    address + count * (8 + skip)
}

/// The address behind `count` pointers, where it can be held.
fn find_spaced_end(address: u64, count: u64, skip: u64) -> (r: Option<u64>)
    ensures
        match r {
            Some(end) => end == spaced_end(address, count, skip),
            None => spaced_end(address, count, skip) > u64::MAX,
        },
{
    if count == 0 {
        return Some(address);
    }
    let ghost step = 8 + skip;
    assert(count * step >= step) by (nonlinear_arith)
        requires
            count >= 1,
            step >= 8,
    ;
    let step: u64 = skip.checked_add(8)?;
    let span: u64 = count.checked_mul(step)?;
    address.checked_add(span)
}

/// The addresses of `count` pointers, one at a time.
proof fn lemma_spaced_step(address: u64, i: u64, count: u64, skip: u64)
    requires
        i < count,
        spaced_end(address, count, skip) <= u64::MAX,
    ensures
        address + i * (8 + skip) + (8 + skip) <= u64::MAX,
        (i + 1) * (8 + skip) == i * (8 + skip) + (8 + skip),
{
    let step = 8 + skip;
    assert((i + 1) * step == i * step + step) by (nonlinear_arith);
    assert((i + 1) * step <= count * step) by (nonlinear_arith)
        requires
            i + 1 <= count,
            0 <= step,
    ;
}

/// Note `count` rebases from `address` on and move `address` behind them.
fn record_rebases(rebases: &mut Vec<u64>, address: &mut u64, count: u64, skip: u64) -> (r: Result<
    (),
    MachOError,
>)
    ensures
        match r {
            Ok(_) => spaced_end(*old(address), count, skip) <= u64::MAX && *final(address)
                == spaced_end(*old(address), count, skip) && final(rebases)@ == old(rebases)@
                + spaced(*old(address), count, skip),
            Err(e) => e == MachOError::RebaseOverflow && spaced_end(*old(address), count, skip)
                > u64::MAX,
        },
{
    let start: u64 = *address;
    let end: u64 = match find_spaced_end(start, count, skip) {
        Some(end) => end,
        None => return Err(MachOError::RebaseOverflow),
    };
    let ghost before = rebases@;
    let mut at: u64 = start;
    let mut i: u64 = 0;
    while i < count
        invariant
            i <= count,
            end == spaced_end(start, count, skip),
            at == start + i * (8 + skip),
            rebases@ == before + spaced(start, i, skip),
        decreases count - i,
    {
        proof {
            lemma_spaced_step(start, i, count, skip);
        }
        rebases.push(at);
        assert(rebases@ =~= before + spaced(start, (i + 1) as u64, skip));
        at = at + 8 + skip;
        i = i + 1;
    }
    *address = end;
    Ok(())
}

/// One step of a rebase stream: the position and the address behind it and the locations that it
/// names, or nothing where the stream ends.
pub open spec fn rebase_step(
    stream: Seq<u8>,
    segments: Seq<Segment>,
    pos: int,
    address: u64,
) -> Result<Option<(int, u64, Seq<u64>)>, MachOError> {
    let opcode = stream[pos] / 16;
    let immediate = stream[pos] % 16;
    let next = pos + 1;
    if opcode == 0 {
        Ok(None)
    } else if opcode == 1 {
        if immediate == 1 {
            Ok(Some((next, address, Seq::empty())))
        } else {
            Err(MachOError::RebaseType(immediate))
        }
    } else if opcode == 2 {
        if immediate >= segments.len() {
            Err(MachOError::RebaseSegment)
        } else {
            rebase_jump(stream, next, segments[immediate as int].vmaddr)
        }
    } else if opcode == 3 {
        rebase_jump(stream, next, address)
    } else if opcode == 4 {
        if address + immediate * 8 > u64::MAX {
            Err(MachOError::RebaseOverflow)
        } else {
            Ok(Some((next, (address + immediate * 8) as u64, Seq::empty())))
        }
    } else if opcode == 5 {
        rebase_run(next, address, immediate as u64, 0)
    } else if opcode == 6 {
        match uleb_read(stream, next) {
            Err(e) => Err(e),
            Ok((count, end)) => rebase_run(end, address, count, 0),
        }
    } else if opcode == 7 {
        match uleb_read(stream, next) {
            Err(e) => Err(e),
            Ok((skip, end)) => rebase_run(end, address, 1, skip),
        }
    } else if opcode == 8 {
        match uleb_read(stream, next) {
            Err(e) => Err(e),
            Ok((count, middle)) => match uleb_read(stream, middle) {
                Err(e) => Err(e),
                Ok((skip, end)) => rebase_run(end, address, count, skip),
            },
        }
    } else {
        Err(MachOError::RebaseOpcode((opcode * 16) as u8))
    }
}

/// A step that moves the address by the number at `pos`.
pub open spec fn rebase_jump(stream: Seq<u8>, pos: int, base: u64) -> Result<
    Option<(int, u64, Seq<u64>)>,
    MachOError,
> {
    match uleb_read(stream, pos) {
        Err(e) => Err(e),
        Ok((delta, end)) => if base + delta > u64::MAX {
            Err(MachOError::RebaseOverflow)
        } else {
            Ok(Some((end, (base + delta) as u64, Seq::empty())))
        },
    }
}

/// A step that names `count` locations.
pub open spec fn rebase_run(pos: int, address: u64, count: u64, skip: u64) -> Result<
    Option<(int, u64, Seq<u64>)>,
    MachOError,
> {
    if spaced_end(address, count, skip) > u64::MAX {
        Err(MachOError::RebaseOverflow)
    } else {
        Ok(
            Some(
                (pos, spaced_end(address, count, skip) as u64, spaced(address, count, skip)),
            ),
        )
    }
}

proof fn lemma_rebase_step(stream: Seq<u8>, segments: Seq<Segment>, pos: int, address: u64)
    requires
        0 <= pos < stream.len(),
    ensures
        rebase_step(stream, segments, pos, address) matches Ok(Some((end, _, _))) ==> pos < end
            <= stream.len(),
{
    lemma_uleb_end(stream, pos + 1, ULEB_LIMIT as int);
    match uleb_read(stream, pos + 1) {
        Ok((_, middle)) => {
            lemma_uleb_end(stream, middle, ULEB_LIMIT as int);
        },
        Err(_) => {},
    }
}

/// The locations that a rebase stream names from `pos` on, behind those of `done`.
pub open spec fn rebases_from(
    stream: Seq<u8>,
    segments: Seq<Segment>,
    pos: int,
    address: u64,
    done: Seq<u64>,
) -> Result<Seq<u64>, MachOError>
    decreases stream.len() - pos,
    via rebases_from_decreases
{
    if pos < 0 || pos >= stream.len() {
        Ok(done)
    } else {
        match rebase_step(stream, segments, pos, address) {
            Err(e) => Err(e),
            Ok(None) => Ok(done),
            Ok(Some((next, moved, named))) => rebases_from(
                stream,
                segments,
                next,
                moved,
                done + named,
            ),
        }
    }
}

#[via_fn]
proof fn rebases_from_decreases(
    stream: Seq<u8>,
    segments: Seq<Segment>,
    pos: int,
    address: u64,
    done: Seq<u64>,
) {
    if 0 <= pos < stream.len() {
        lemma_rebase_step(stream, segments, pos, address);
    }
}

/// Move an address by the number at `pos`.
fn jump(stream: &[u8], pos: &mut usize, base: u64, overflow: MachOError) -> (r: Result<
    u64,
    MachOError,
>)
    ensures
        match r {
            Ok(moved) => uleb_read(stream@, *old(pos) as int) matches Ok((delta, end)) && moved
                == base + delta && end == *final(pos) && *old(pos) < *final(pos) <= stream@.len(),
            Err(e) => match uleb_read(stream@, *old(pos) as int) {
                Ok((delta, _)) => base + delta > u64::MAX && e == overflow,
                Err(first) => e == first,
            },
        },
{
    let delta: u64 = read_uleb(stream, pos)?;
    match base.checked_add(delta) {
        Some(moved) => Ok(moved),
        None => Err(overflow),
    }
}

/// The locations that a stream of rebase opcodes names.
pub fn parse_rebase_opcodes(stream: &[u8], segments: &[Segment]) -> (r: Result<
    Vec<u64>,
    MachOError,
>)
    ensures
        match r {
            Ok(v) => rebases_from(stream@, segments@, 0, 0, Seq::empty()) == Ok::<
                Seq<u64>,
                MachOError,
            >(v@),
            Err(e) => rebases_from(stream@, segments@, 0, 0, Seq::empty()) == Err::<
                Seq<u64>,
                MachOError,
            >(e),
        },
{
    let mut pos: usize = 0;
    let mut address: u64 = 0;
    let mut rebases: Vec<u64> = Vec::new();
    while pos < stream.len()
        invariant
            pos <= stream@.len(),
            rebases_from(stream@, segments@, pos as int, address, rebases@) == rebases_from(
                stream@,
                segments@,
                0,
                0,
                Seq::empty(),
            ),
        decreases stream@.len() - pos,
    {
        let ghost before = rebases@;
        let ghost first = address;
        let ghost at = pos as int;
        assert(before + Seq::<u64>::empty() =~= before);
        let opcode: u8 = stream[pos] / 16;
        let immediate: u8 = stream[pos] % 16;
        pos = pos + 1;
        if opcode == 0 {
            return Ok(rebases);
        } else if opcode == 1 {
            if immediate != 1 {
                return Err(MachOError::RebaseType(immediate));
            }
        } else if opcode == 2 {
            if immediate as usize >= segments.len() {
                return Err(MachOError::RebaseSegment);
            }
            address =
            jump(stream, &mut pos, segments[immediate as usize].vmaddr, MachOError::RebaseOverflow)?;
        } else if opcode == 3 {
            address = jump(stream, &mut pos, address, MachOError::RebaseOverflow)?;
        } else if opcode == 4 {
            address =
            match address.checked_add(immediate as u64 * 8) {
                Some(moved) => moved,
                None => return Err(MachOError::RebaseOverflow),
            };
        } else if opcode == 5 {
            record_rebases(&mut rebases, &mut address, immediate as u64, 0)?;
        } else if opcode == 6 {
            let count: u64 = read_uleb(stream, &mut pos)?;
            record_rebases(&mut rebases, &mut address, count, 0)?;
        } else if opcode == 7 {
            let skip: u64 = read_uleb(stream, &mut pos)?;
            record_rebases(&mut rebases, &mut address, 1, skip)?;
        } else if opcode == 8 {
            let count: u64 = read_uleb(stream, &mut pos)?;
            let skip: u64 = read_uleb(stream, &mut pos)?;
            record_rebases(&mut rebases, &mut address, count, skip)?;
        } else {
            return Err(MachOError::RebaseOpcode(opcode * 16));
        }
        assert(rebase_step(stream@, segments@, at, first) matches Ok(Some((next, moved, named)))
            && next == pos && moved == address && rebases@ == before + named);
    }
    Ok(rebases)
}

/// The symbol that a bind names: without one leading underscore, and none where it has no bytes.
pub open spec fn bind_symbol(name: Seq<u8>) -> Option<Seq<char>> {
    if name.len() == 0 {
        None
    } else {
        Some(shown_text(without_underscore(name)))
    }
}

/// `count` binds to the symbol `name` from `address` on, each `8 + skip` behind the one before.
pub open spec fn spaced_binds(address: u64, count: u64, skip: u64, name: Seq<u8>) -> Seq<
    FixupModel,
> {
    Seq::new(
        count as nat,
        |i: int|
            FixupModel {
                location: (address + i * (8 + skip)) as u64,
                target: TargetModel::Bind(bind_symbol(name)),
            },
    )
}

/// Where a bind stream stands: position, symbol and address.
pub struct BindState {
    pub pos: int,
    pub symbol: Seq<u8>,
    pub address: u64,
}

/// A step that moves the address by the number at `pos`.
pub open spec fn bind_jump(stream: Seq<u8>, state: BindState, base: u64) -> Result<
    (BindState, Seq<FixupModel>),
    MachOError,
> {
    match uleb_read(stream, state.pos) {
        Err(e) => Err(e),
        Ok((delta, end)) => if base + delta > u64::MAX {
            Err(MachOError::BindOverflow)
        } else {
            Ok(
                (
                    BindState { pos: end, address: (base + delta) as u64, ..state },
                    Seq::empty(),
                ),
            )
        },
    }
}

/// A step that binds `count` locations.
pub open spec fn bind_run(state: BindState, count: u64, skip: u64) -> Result<
    (BindState, Seq<FixupModel>),
    MachOError,
> {
    if spaced_end(state.address, count, skip) > u64::MAX {
        Err(MachOError::BindOverflow)
    } else {
        Ok(
            (
                BindState { address: spaced_end(state.address, count, skip) as u64, ..state },
                spaced_binds(state.address, count, skip, state.symbol),
            ),
        )
    }
}

/// The position behind the signed LEB128 number at `pos`.
pub open spec fn sleb_end(stream: Seq<u8>, pos: int) -> Option<int>
    decreases stream.len() - pos,
{
    if pos >= stream.len() {
        None
    } else if stream[pos] < 128 {
        Some(pos + 1)
    } else {
        sleb_end(stream, pos + 1)
    }
}

/// One step of a bind stream: the state behind it and the binds that it names.
pub open spec fn bind_step(stream: Seq<u8>, segments: Seq<Segment>, before: BindState) -> Result<
    (BindState, Seq<FixupModel>),
    MachOError,
> {
    let opcode = stream[before.pos] / 16;
    let immediate = stream[before.pos] % 16;
    let state = BindState { pos: before.pos + 1, ..before };
    if opcode == 0 || opcode == 1 || opcode == 3 || opcode == 5 {
        Ok((state, Seq::empty()))
    } else if opcode == 2 {
        match uleb_read(stream, state.pos) {
            Err(e) => Err(e),
            Ok((_, end)) => Ok((BindState { pos: end, ..state }, Seq::empty())),
        }
    } else if opcode == 4 {
        match c_string(stream.subrange(state.pos, stream.len() as int)) {
            None => Err(MachOError::UnterminatedSymbol),
            Some(symbol) => Ok(
                (BindState { pos: state.pos + symbol.len() + 1, symbol, ..state }, Seq::empty()),
            ),
        }
    } else if opcode == 6 {
        match sleb_end(stream, state.pos) {
            None => Err(MachOError::TruncatedSleb),
            Some(end) => Ok((BindState { pos: end, ..state }, Seq::empty())),
        }
    } else if opcode == 7 {
        if immediate >= segments.len() {
            Err(MachOError::BindSegment)
        } else {
            bind_jump(stream, state, segments[immediate as int].vmaddr)
        }
    } else if opcode == 8 {
        bind_jump(stream, state, state.address)
    } else if opcode == 9 {
        bind_run(state, 1, 0)
    } else if opcode == 10 {
        match uleb_read(stream, state.pos) {
            Err(e) => Err(e),
            Ok((skip, end)) => bind_run(BindState { pos: end, ..state }, 1, skip),
        }
    } else if opcode == 11 {
        bind_run(state, 1, (immediate * 8) as u64)
    } else if opcode == 12 {
        match uleb_read(stream, state.pos) {
            Err(e) => Err(e),
            Ok((count, middle)) => match uleb_read(stream, middle) {
                Err(e) => Err(e),
                Ok((skip, end)) => bind_run(BindState { pos: end, ..state }, count, skip),
            },
        }
    } else {
        Err(MachOError::BindOpcode((opcode * 16) as u8))
    }
}

proof fn lemma_sleb_end(stream: Seq<u8>, pos: int)
    ensures
        sleb_end(stream, pos) matches Some(end) ==> pos < end <= stream.len(),
    decreases stream.len() - pos,
{
    if pos < stream.len() && stream[pos] >= 128 {
        lemma_sleb_end(stream, pos + 1);
    }
}

proof fn lemma_bind_step(stream: Seq<u8>, segments: Seq<Segment>, state: BindState)
    requires
        0 <= state.pos < stream.len(),
    ensures
        bind_step(stream, segments, state) matches Ok((next, _)) ==> state.pos < next.pos
            <= stream.len(),
{
    let pos = state.pos + 1;
    lemma_uleb_end(stream, pos, ULEB_LIMIT as int);
    match uleb_read(stream, pos) {
        Ok((_, middle)) => {
            lemma_uleb_end(stream, middle, ULEB_LIMIT as int);
        },
        Err(_) => {},
    }
    lemma_sleb_end(stream, pos);
    stream.subrange(pos, stream.len() as int).index_of_first_ensures(0u8);
}

/// The binds that a stream names from `state` on, behind those of `done`.
pub open spec fn binds_from(
    stream: Seq<u8>,
    segments: Seq<Segment>,
    state: BindState,
    done: Seq<FixupModel>,
) -> Result<Seq<FixupModel>, MachOError>
    decreases stream.len() - state.pos,
    via binds_from_decreases
{
    if state.pos < 0 || state.pos >= stream.len() {
        Ok(done)
    } else {
        match bind_step(stream, segments, state) {
            Err(e) => Err(e),
            Ok((next, named)) => binds_from(stream, segments, next, done + named),
        }
    }
}

#[via_fn]
proof fn binds_from_decreases(
    stream: Seq<u8>,
    segments: Seq<Segment>,
    state: BindState,
    done: Seq<FixupModel>,
) {
    if 0 <= state.pos < stream.len() {
        lemma_bind_step(stream, segments, state);
    }
}

/// The binds that a whole stream names.
pub open spec fn binds_of(stream: Seq<u8>, segments: Seq<Segment>) -> Result<
    Seq<FixupModel>,
    MachOError,
> {
    binds_from(
        stream,
        segments,
        BindState { pos: 0, symbol: Seq::empty(), address: 0 },
        Seq::empty(),
    )
}

/// Note `count` binds from `address` on and move `address` behind them.
fn record_binds(
    fixups: &mut Vec<Fixup>,
    address: &mut u64,
    symbol: &[u8],
    count: u64,
    skip: u64,
) -> (r: Result<(), MachOError>)
    ensures
        match r {
            Ok(_) => spaced_end(*old(address), count, skip) <= u64::MAX && *final(address)
                == spaced_end(*old(address), count, skip) && fixup_models(final(fixups)@)
                == fixup_models(old(fixups)@) + spaced_binds(
                *old(address),
                count,
                skip,
                symbol@,
            ),
            Err(e) => e == MachOError::BindOverflow && spaced_end(*old(address), count, skip)
                > u64::MAX,
        },
{
    let start: u64 = *address;
    let end: u64 = match find_spaced_end(start, count, skip) {
        Some(end) => end,
        None => return Err(MachOError::BindOverflow),
    };
    let ghost before = fixup_models(fixups@);
    assert(before + spaced_binds(start, 0, skip, symbol@) =~= before);
    let mut at: u64 = start;
    let mut i: u64 = 0;
    while i < count
        invariant
            i <= count,
            end == spaced_end(start, count, skip),
            at == start + i * (8 + skip),
            fixup_models(fixups@) == before + spaced_binds(start, i, skip, symbol@),
        decreases count - i,
    {
        proof {
            lemma_spaced_step(start, i, count, skip);
        }
        let ghost so_far = fixups@;
        let name: Option<String> = if symbol.len() == 0 {
            None
        } else {
            Some(symbol_string(symbol))
        };
        fixups.push(Fixup { location: at, target: FixupTarget::Bind(name) });
        assert(fixup_models(fixups@) =~= fixup_models(so_far).push(fixups@.last()@));
        assert(fixup_models(fixups@) =~= before + spaced_binds(
            start,
            (i + 1) as u64,
            skip,
            symbol@,
        ));
        at = at + 8 + skip;
        i = i + 1;
    }
    *address = end;
    Ok(())
}

/// The position behind the signed LEB128 number at `pos`.
fn skip_sleb(stream: &[u8], pos: usize) -> (r: Option<usize>)
    requires
        pos <= stream@.len(),
    ensures
        match r {
            Some(end) => sleb_end(stream@, pos as int) == Some(end as int) && pos < end
                <= stream@.len(),
            None => sleb_end(stream@, pos as int) is None,
        },
{
    let mut at: usize = pos;
    while at < stream.len()
        invariant
            pos <= at <= stream@.len(),
            sleb_end(stream@, at as int) == sleb_end(stream@, pos as int),
        decreases stream@.len() - at,
    {
        if stream[at] < 128 {
            return Some(at + 1);
        }
        at = at + 1;
    }
    None
}

/// The binds that a stream of bind opcodes names.
pub fn parse_bind_opcodes(stream: &[u8], segments: &[Segment]) -> (r: Result<
    Vec<Fixup>,
    MachOError,
>)
    ensures
        match r {
            Ok(v) => binds_of(stream@, segments@) == Ok::<Seq<FixupModel>, MachOError>(
                fixup_models(v@),
            ),
            Err(e) => binds_of(stream@, segments@) == Err::<Seq<FixupModel>, MachOError>(e),
        },
{
    let mut pos: usize = 0;
    let mut symbol_start: usize = 0;
    let mut symbol_end: usize = 0;
    let mut address: u64 = 0;
    let mut fixups: Vec<Fixup> = Vec::new();
    assert(fixup_models(fixups@) =~= Seq::<FixupModel>::empty());
    assert(stream@.subrange(0, 0) =~= Seq::<u8>::empty());
    while pos < stream.len()
        invariant
            pos <= stream@.len(),
            symbol_start <= symbol_end <= stream@.len(),
            binds_from(
                stream@,
                segments@,
                BindState {
                    pos: pos as int,
                    symbol: stream@.subrange(symbol_start as int, symbol_end as int),
                    address,
                },
                fixup_models(fixups@),
            ) == binds_of(stream@, segments@),
        decreases stream@.len() - pos,
    {
        let ghost before = fixup_models(fixups@);
        let ghost state = BindState {
            pos: pos as int,
            symbol: stream@.subrange(symbol_start as int, symbol_end as int),
            address,
        };
        assert(before + Seq::<FixupModel>::empty() =~= before);
        let opcode: u8 = stream[pos] / 16;
        let immediate: u8 = stream[pos] % 16;
        pos = pos + 1;
        if opcode == 0 || opcode == 1 || opcode == 3 || opcode == 5 {
        } else if opcode == 2 {
            read_uleb(stream, &mut pos)?;
        } else if opcode == 4 {
            let rest: &[u8] = &stream[pos..stream.len()];
            match find_zero(rest) {
                Some(len) => {
                    symbol_start = pos;
                    symbol_end = pos + len;
                    pos = pos + len + 1;
                    assert(stream@.subrange(symbol_start as int, symbol_end as int)
                        =~= rest@.subrange(0, len as int));
                },
                None => return Err(MachOError::UnterminatedSymbol),
            }
        } else if opcode == 6 {
            match skip_sleb(stream, pos) {
                Some(end) => {
                    pos = end;
                },
                None => return Err(MachOError::TruncatedSleb),
            }
        } else if opcode == 7 {
            if immediate as usize >= segments.len() {
                return Err(MachOError::BindSegment);
            }
            address =
            jump(stream, &mut pos, segments[immediate as usize].vmaddr, MachOError::BindOverflow)?;
        } else if opcode == 8 {
            address = jump(stream, &mut pos, address, MachOError::BindOverflow)?;
        } else if opcode == 9 {
            record_binds(&mut fixups, &mut address, &stream[symbol_start..symbol_end], 1, 0)?;
        } else if opcode == 10 {
            let skip: u64 = read_uleb(stream, &mut pos)?;
            record_binds(&mut fixups, &mut address, &stream[symbol_start..symbol_end], 1, skip)?;
        } else if opcode == 11 {
            let skip: u64 = immediate as u64 * 8;
            record_binds(&mut fixups, &mut address, &stream[symbol_start..symbol_end], 1, skip)?;
        } else if opcode == 12 {
            let count: u64 = read_uleb(stream, &mut pos)?;
            let skip: u64 = read_uleb(stream, &mut pos)?;
            record_binds(
                &mut fixups,
                &mut address,
                &stream[symbol_start..symbol_end],
                count,
                skip,
            )?;
        } else {
            return Err(MachOError::BindOpcode(opcode * 16));
        }
        assert(bind_step(stream@, segments@, state) matches Ok((next, named)) && next.pos == pos
            && next.address == address && next.symbol == stream@.subrange(
            symbol_start as int,
            symbol_end as int,
        ) && fixup_models(fixups@) == before + named);
    }
    Ok(fixups)
}

} // verus!
