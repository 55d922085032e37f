//! Removal of a trailing embedded code signature.

use vstd::prelude::*;
use crate::bytes::{
    get_u32, get_u64, group_field_len, le32, le64, lemma_u32_at_le, lemma_u32_at_same, overlay,
    push_bytes, put_u32, put_u64, resize_zero, u32_at, u64_at, zeros,
};
use super::format::{
    command_at, command_size_at, name_matches, segment_name_at, MachOError, LC_CODE_SIGNATURE,
    LC_SEGMENT_64, LINKEDIT_NAME, MH_MAGIC_64,
};

verus! {

/// The load commands that removing a signature is about, by their offsets.
#[derive(Clone, Copy, Debug, PartialEq, Eq, Structural)]
pub struct SignatureScan {
    pub linkedit: Option<usize>,
    pub signature: Option<usize>,
}

/// What the `n` load commands from `off` on add to `found`, or the first that cannot be accepted.
pub open spec fn signature_scan(
    data: Seq<u8>,
    cmds_end: int,
    off: int,
    n: int,
    found: SignatureScan,
) -> Result<SignatureScan, MachOError>
    decreases n,
{
    let size = command_size_at(data, off);
    if n <= 0 {
        Ok(found)
    } else if off + 8 > data.len() {
        Err(MachOError::TruncatedCommands)
    } else if size < 8 || off + size > cmds_end {
        Err(MachOError::BadCommandSize(off as usize))
    } else if command_at(data, off) == LC_SEGMENT_64 {
        if size < 72 {
            Err(MachOError::TruncatedSegment)
        } else if segment_name_at(data, off) != LINKEDIT_NAME@ {
            signature_scan(data, cmds_end, off + size, n - 1, found)
        } else if found.linkedit.is_some() {
            Err(MachOError::MultipleLinkedit)
        } else {
            signature_scan(
                data,
                cmds_end,
                off + size,
                n - 1,
                SignatureScan { linkedit: Some(off as usize), signature: found.signature },
            )
        }
    } else if command_at(data, off) == LC_CODE_SIGNATURE {
        if found.signature.is_some() {
            Err(MachOError::MultipleSignatures)
        } else if size < 16 {
            Err(MachOError::TruncatedSignature)
        } else {
            signature_scan(
                data,
                cmds_end,
                off + size,
                n - 1,
                SignatureScan { linkedit: found.linkedit, signature: Some(off as usize) },
            )
        }
    } else {
        signature_scan(data, cmds_end, off + size, n - 1, found)
    }
}

/// Whether the signature at the command `sig` is the last part of the file and of the segment at
/// the command `linkedit`.
pub open spec fn signature_is_last(data: Seq<u8>, linkedit: int, sig: int) -> Result<
    (),
    MachOError,
> {
    let start = u32_at(data, sig + 8);
    let size = u32_at(data, sig + 12);
    let linkedit_start = u64_at(data, linkedit + 40);
    let linkedit_end = linkedit_start + u64_at(data, linkedit + 48);
    if start == 0 || size == 0 {
        Err(MachOError::EmptySignature)
    } else if linkedit_end > u64::MAX {
        Err(MachOError::LinkeditRangeOverflow)
    } else if start < linkedit_start || start + size > linkedit_end {
        Err(MachOError::SignatureOutsideLinkedit)
    } else if start + size != data.len() || linkedit_end != data.len() {
        Err(MachOError::SignatureNotLast)
    } else {
        Ok(())
    }
}

/// The image without the signature whose command stands at `sig`: the segment at `linkedit` ends
/// where the signature began, the commands behind the signature's move up, zeros take the room
/// that this leaves, and the signature itself is cut off.
pub open spec fn without_signature(data: Seq<u8>, linkedit: int, sig: int) -> Seq<u8> {
    let ncmds = u32_at(data, 16);
    let sizeofcmds = u32_at(data, 20);
    let cmds_end = 32 + sizeofcmds;
    let size = command_size_at(data, sig);
    let start = u32_at(data, sig + 8);
    let kept = overlay(
        data,
        linkedit + 48,
        le64((start - u64_at(data, linkedit + 40)) as u64),
    );
    let moved = kept.subrange(0, sig) + kept.subrange(sig + size, cmds_end) + zeros(size)
        + kept.subrange(cmds_end, data.len() as int);
    let counted = overlay(
        overlay(moved, 16, le32((ncmds - 1) as u32)),
        20,
        le32((sizeofcmds - size) as u32),
    );
    counted.subrange(0, start as int)
}

/// The image without its embedded signature; an image without one is itself.
pub open spec fn unsigned(data: Seq<u8>) -> Result<Seq<u8>, MachOError> {
    let cmds_end = 32 + u32_at(data, 20);
    if data.len() < 32 {
        Err(MachOError::TruncatedHeader)
    } else if u32_at(data, 0) != MH_MAGIC_64 {
        Err(MachOError::NotMachO64)
    } else if cmds_end > usize::MAX {
        Err(MachOError::CommandSizeOverflow)
    } else if cmds_end > data.len() {
        Err(MachOError::CommandsPastEnd)
    } else {
        match signature_scan(
            data,
            cmds_end,
            32,
            u32_at(data, 16) as int,
            SignatureScan { linkedit: None, signature: None },
        ) {
            Err(e) => Err(e),
            Ok(found) => match (found.signature, found.linkedit) {
                (None, _) => Ok(data),
                (Some(_), None) => Err(MachOError::SignatureWithoutLinkedit),
                (Some(sig), Some(linkedit)) => match signature_is_last(
                    data,
                    linkedit as int,
                    sig as int,
                ) {
                    Err(e) => Err(e),
                    Ok(_) => Ok(without_signature(data, linkedit as int, sig as int)),
                },
            },
        }
    }
}

/// Whether a command at `off` of at least `size` bytes lies among the commands.
spec fn command_fits(data: Seq<u8>, cmds_end: int, off: int, size: int) -> bool {
    &&& 32 <= off
    &&& size <= command_size_at(data, off)
    &&& off + command_size_at(data, off) <= cmds_end
}

/// Find the `__LINKEDIT` segment and the signature among the load commands.
fn scan_signature(data: &[u8], cmds_end: usize, ncmds: u32) -> (r: Result<
    SignatureScan,
    MachOError,
>)
    requires
        32 <= cmds_end <= data@.len(),
    ensures
        r == signature_scan(
            data@,
            cmds_end as int,
            32,
            ncmds as int,
            SignatureScan { linkedit: None, signature: None },
        ),
        r matches Ok(found) ==> {
            &&& found.linkedit matches Some(l) ==> command_fits(
                data@,
                cmds_end as int,
                l as int,
                72,
            )
            &&& found.signature matches Some(s) ==> command_fits(
                data@,
                cmds_end as int,
                s as int,
                16,
            ) && ncmds > 0
        },
{
    assert(data.len() <= usize::MAX);
    let mut found = SignatureScan { linkedit: None, signature: None };
    let mut offset: usize = 32;
    let mut done: u32 = 0;
    while done < ncmds
        invariant
            done <= ncmds,
            32 <= offset <= cmds_end <= data@.len() <= usize::MAX,
            found.linkedit matches Some(l) ==> command_fits(data@, cmds_end as int, l as int, 72),
            found.signature matches Some(s) ==> command_fits(data@, cmds_end as int, s as int, 16)
                && done > 0,
            signature_scan(data@, cmds_end as int, offset as int, ncmds - done, found)
                == signature_scan(
                data@,
                cmds_end as int,
                32,
                ncmds as int,
                SignatureScan { linkedit: None, signature: None },
            ),
        decreases ncmds - done,
    {
        if data.len() - offset < 8 {
            return Err(MachOError::TruncatedCommands);
        }
        let cmd: u32 = get_u32(data, offset);
        let cmdsize: usize = get_u32(data, offset + 4) as usize;
        if cmdsize < 8 || cmdsize > cmds_end - offset {
            return Err(MachOError::BadCommandSize(offset));
        }
        if cmd == LC_SEGMENT_64 {
            if cmdsize < 72 {
                return Err(MachOError::TruncatedSegment);
            }
            if name_matches(data, offset + 8, &LINKEDIT_NAME) {
                if found.linkedit.is_some() {
                    return Err(MachOError::MultipleLinkedit);
                }
                found = SignatureScan { linkedit: Some(offset), signature: found.signature };
            }
        } else if cmd == LC_CODE_SIGNATURE {
            if found.signature.is_some() {
                return Err(MachOError::MultipleSignatures);
            }
            if cmdsize < 16 {
                return Err(MachOError::TruncatedSignature);
            }
            found = SignatureScan { linkedit: found.linkedit, signature: Some(offset) };
        }
        offset = offset + cmdsize;
        done = done + 1;
    }
    Ok(found)
}

/// Check that the signature ends the file and its segment.
fn check_signature(data: &[u8], linkedit: usize, sig: usize) -> (r: Result<(), MachOError>)
    requires
        linkedit + 72 <= data@.len(),
        sig + 16 <= data@.len(),
    ensures
        r == signature_is_last(data@, linkedit as int, sig as int),
{
    assert(data.len() <= usize::MAX);
    let start: u64 = get_u32(data, sig + 8) as u64;
    let size: u64 = get_u32(data, sig + 12) as u64;
    let linkedit_start: u64 = get_u64(data, linkedit + 40);
    let linkedit_size: u64 = get_u64(data, linkedit + 48);
    if start == 0 || size == 0 {
        return Err(MachOError::EmptySignature);
    }
    let signature_end: u64 = start + size;
    let linkedit_end: u64 = match linkedit_start.checked_add(linkedit_size) {
        Some(end) => end,
        None => return Err(MachOError::LinkeditRangeOverflow),
    };
    if start < linkedit_start || signature_end > linkedit_end {
        return Err(MachOError::SignatureOutsideLinkedit);
    }
    if signature_end != data.len() as u64 || linkedit_end != data.len() as u64 {
        return Err(MachOError::SignatureNotLast);
    }
    Ok(())
}

/// Remove a trailing embedded code signature from a thin 64-bit Mach-O image.
pub fn remove_code_signature(data: Vec<u8>) -> (r: Result<Vec<u8>, MachOError>)
    ensures
        match r {
            Ok(out) => unsigned(data@) == Ok::<Seq<u8>, MachOError>(out@),
            Err(e) => unsigned(data@) == Err::<Seq<u8>, MachOError>(e),
        },
{
    broadcast use group_field_len;

    if data.len() < 32 {
        return Err(MachOError::TruncatedHeader);
    }
    if get_u32(&data, 0) != MH_MAGIC_64 {
        return Err(MachOError::NotMachO64);
    }
    let ncmds: u32 = get_u32(&data, 16);
    let sizeofcmds: u32 = get_u32(&data, 20);
    let cmds_end: usize = match 32usize.checked_add(sizeofcmds as usize) {
        Some(end) => end,
        None => return Err(MachOError::CommandSizeOverflow),
    };
    if cmds_end > data.len() {
        return Err(MachOError::CommandsPastEnd);
    }
    let found: SignatureScan = scan_signature(&data, cmds_end, ncmds)?;
    let sig: usize = match found.signature {
        Some(sig) => sig,
        None => return Ok(data),
    };
    let linkedit: usize = match found.linkedit {
        Some(linkedit) => linkedit,
        None => return Err(MachOError::SignatureWithoutLinkedit),
    };
    check_signature(&data, linkedit, sig)?;
    let size: usize = get_u32(&data, sig + 4) as usize;
    let start: usize = get_u32(&data, sig + 8) as usize;
    let linkedit_start: u64 = get_u64(&data, linkedit + 40);
    let mut kept: Vec<u8> = data;
    put_u64(&mut kept, linkedit + 48, start as u64 - linkedit_start);

    let mut out: Vec<u8> = Vec::with_capacity(kept.len());
    push_bytes(&mut out, &kept[0..sig]);
    push_bytes(&mut out, &kept[sig + size..cmds_end]);
    resize_zero(&mut out, cmds_end);
    push_bytes(&mut out, &kept[cmds_end..kept.len()]);
    put_u32(&mut out, 16, ncmds - 1);
    put_u32(&mut out, 20, sizeofcmds - size as u32);
    out.truncate(start);
    Ok(out)
}

/// What a successful walk finds lies ahead of it, and what it had found stays found.
proof fn lemma_scan_finds_ahead(
    data: Seq<u8>,
    cmds_end: int,
    off: int,
    n: int,
    found: SignatureScan,
)
    requires
        32 <= off <= cmds_end <= usize::MAX,
        signature_scan(data, cmds_end, off, n, found).is_ok(),
    ensures
        ({
            let last = signature_scan(data, cmds_end, off, n, found)->Ok_0;
            &&& found.signature is Some ==> last.signature == found.signature
            &&& found.linkedit is Some ==> last.linkedit == found.linkedit
            &&& found.signature is None ==> (last.signature matches Some(s) ==> n > 0 && off <= s
                && command_at(data, s as int) == LC_CODE_SIGNATURE && command_fits(
                data,
                cmds_end,
                s as int,
                16,
            ))
            &&& found.linkedit is None ==> (last.linkedit matches Some(l) ==> off <= l
                && command_at(data, l as int) == LC_SEGMENT_64 && command_fits(
                data,
                cmds_end,
                l as int,
                72,
            ))
        }),
    decreases n,
{
    if n > 0 {
        let size = command_size_at(data, off);
        let cmd = command_at(data, off);
        if cmd == LC_SEGMENT_64 && segment_name_at(data, off) == LINKEDIT_NAME@ {
            lemma_scan_finds_ahead(
                data,
                cmds_end,
                off + size,
                n - 1,
                SignatureScan { linkedit: Some(off as usize), signature: found.signature },
            );
        } else if cmd == LC_CODE_SIGNATURE {
            lemma_scan_finds_ahead(
                data,
                cmds_end,
                off + size,
                n - 1,
                SignatureScan { linkedit: found.linkedit, signature: Some(off as usize) },
            );
        } else {
            lemma_scan_finds_ahead(data, cmds_end, off + size, n - 1, found);
        }
    }
}

/// Whether a command that was moved by `size` bytes reads the same in both places.
proof fn lemma_same_command(
    data: Seq<u8>,
    out: Seq<u8>,
    off: int,
    size: int,
    linkedit: int,
    wide: bool,
)
    requires
        0 <= size <= off,
        off + (if wide {
            24int
        } else {
            8
        }) <= data.len(),
        off - size + (if wide {
            24int
        } else {
            8
        }) <= out.len(),
        forall|i: int|
            off <= i < off + (if wide {
                24int
            } else {
                8
            }) && !(linkedit + 48 <= i < linkedit + 56) ==> out[i - size] == #[trigger] data[i],
        linkedit == off || linkedit + 56 <= off || off + (if wide {
            24int
        } else {
            8
        }) <= linkedit + 48,
    ensures
        command_at(out, off - size) == command_at(data, off),
        command_size_at(out, off - size) == command_size_at(data, off),
        wide ==> segment_name_at(out, off - size) == segment_name_at(data, off),
{
    assert(out.subrange(off - size, off - size + 4) =~= data.subrange(off, off + 4));
    assert(out.subrange(off - size + 4, off - size + 8) =~= data.subrange(off + 4, off + 8));
    lemma_u32_at_same(out, off - size, data, off);
    lemma_u32_at_same(out, off - size + 4, data, off + 4);
    if wide {
        assert(segment_name_at(out, off - size) =~= segment_name_at(data, off));
    }
}

/// The walk over the commands behind the signature goes the same way once they moved up.
proof fn lemma_scan_behind(
    data: Seq<u8>,
    out: Seq<u8>,
    cmds_end: int,
    size: int,
    off: int,
    n: int,
    found: SignatureScan,
    after: SignatureScan,
    linkedit: int,
)
    requires
        16 <= size,
        32 + size <= off <= cmds_end <= data.len() <= usize::MAX,
        cmds_end - size <= out.len(),
        found.signature is Some,
        after.signature is None,
        after.linkedit.is_some() == found.linkedit.is_some(),
        signature_scan(data, cmds_end, off, n, found) matches Ok(last) && last.linkedit == Some(
            linkedit as usize,
        ),
        0 <= linkedit <= usize::MAX,
        found.linkedit is Some ==> linkedit + 72 <= off,
        forall|i: int|
            off <= i < cmds_end && !(linkedit + 48 <= i < linkedit + 56) ==> out[i - size]
                == #[trigger] data[i],
    ensures
        signature_scan(out, cmds_end - size, off - size, n, after) matches Ok(last)
            && last.signature is None,
    decreases n,
{
    if n > 0 {
        let cmd = command_at(data, off);
        let cmdsize = command_size_at(data, off);
        let segment = cmd == LC_SEGMENT_64;
        lemma_scan_finds_ahead(data, cmds_end, off, n, found);
        let found2 = if segment && segment_name_at(data, off) == LINKEDIT_NAME@ {
            SignatureScan { linkedit: Some(off as usize), signature: found.signature }
        } else {
            found
        };
        let after2 = if segment && segment_name_at(data, off) == LINKEDIT_NAME@ {
            SignatureScan { linkedit: Some((off - size) as usize), signature: None }
        } else {
            after
        };
        lemma_scan_finds_ahead(data, cmds_end, off + cmdsize, n - 1, found2);
        lemma_same_command(data, out, off, size, linkedit, segment);
        lemma_scan_behind(
            data,
            out,
            cmds_end,
            size,
            off + cmdsize,
            n - 1,
            found2,
            after2,
            linkedit,
        );
    }
}

/// The walk over the commands before the signature goes the same way, and then on behind it.
proof fn lemma_scan_before(
    data: Seq<u8>,
    out: Seq<u8>,
    cmds_end: int,
    sig: int,
    off: int,
    n: int,
    found: SignatureScan,
    linkedit: int,
)
    requires
        32 <= off <= cmds_end <= data.len() <= usize::MAX,
        cmds_end - command_size_at(data, sig) <= out.len(),
        found.signature is None,
        signature_scan(data, cmds_end, off, n, found) matches Ok(last) && last.linkedit == Some(
            linkedit as usize,
        ) && last.signature == Some(sig as usize),
        0 <= linkedit <= usize::MAX,
        0 <= sig <= usize::MAX,
        found.linkedit is Some ==> linkedit + 72 <= off,
        forall|i: int|
            32 <= i < sig && !(linkedit + 48 <= i < linkedit + 56) ==> out[i] == data[i],
        forall|i: int|
            sig + command_size_at(data, sig) <= i < cmds_end && !(linkedit + 48 <= i < linkedit
                + 56) ==> out[i - command_size_at(data, sig)] == #[trigger] data[i],
    ensures
        signature_scan(out, cmds_end - command_size_at(data, sig), off, n - 1, found) matches Ok(
            last,
        ) && last.signature is None,
    decreases n,
{
    let cmd = command_at(data, off);
    let cmdsize = command_size_at(data, off);
    let segment = cmd == LC_SEGMENT_64;
    lemma_scan_finds_ahead(data, cmds_end, off, n, found);
    if cmd == LC_CODE_SIGNATURE {
        let found2 = SignatureScan { linkedit: found.linkedit, signature: Some(off as usize) };
        lemma_scan_finds_ahead(data, cmds_end, off + cmdsize, n - 1, found2);
        lemma_scan_behind(
            data,
            out,
            cmds_end,
            cmdsize,
            off + cmdsize,
            n - 1,
            found2,
            found,
            linkedit,
        );
    } else {
        let found2 = if segment && segment_name_at(data, off) == LINKEDIT_NAME@ {
            SignatureScan { linkedit: Some(off as usize), signature: found.signature }
        } else {
            found
        };
        lemma_scan_finds_ahead(data, cmds_end, off + cmdsize, n - 1, found2);
        assert(off + cmdsize <= sig);
        lemma_same_command(data, out, off, 0, linkedit, segment);
        lemma_scan_before(data, out, cmds_end, sig, off + cmdsize, n - 1, found2, linkedit);
    }
}

/// Removing the signature a second time changes nothing.
///
/// An image whose signature lies in front of the end of its load commands is left out: cutting it
/// off cuts the commands.
pub proof fn law_unsigned_stays_unsigned(data: Seq<u8>)
    requires
        unsigned(data).is_ok(),
        data.len() <= usize::MAX,
        ({
            let out = unsigned(data)->Ok_0;
            32 <= out.len() && 32 + u32_at(out, 20) <= out.len()
        }),
    ensures
        unsigned(unsigned(data)->Ok_0) == unsigned(data),
{
    broadcast use group_field_len;

    let out = unsigned(data)->Ok_0;
    let cmds_end = 32 + u32_at(data, 20);
    let ncmds = u32_at(data, 16);
    let start = SignatureScan { linkedit: None, signature: None };
    let found = signature_scan(data, cmds_end, 32, ncmds as int, start)->Ok_0;
    lemma_scan_finds_ahead(data, cmds_end, 32, ncmds as int, start);
    if found.signature is Some {
        let sig = found.signature->0 as int;
        let linkedit = found.linkedit->0 as int;
        let size = command_size_at(data, sig);
        let sizeofcmds = u32_at(data, 20);
        assert(out.subrange(0, 4) =~= data.subrange(0, 4));
        lemma_u32_at_same(out, 0, data, 0);
        assert(out.subrange(16, 20) =~= le32((ncmds - 1) as u32));
        lemma_u32_at_le(out, 16, (ncmds - 1) as u32);
        assert(out.subrange(20, 24) =~= le32((sizeofcmds - size) as u32));
        lemma_u32_at_le(out, 20, (sizeofcmds - size) as u32);
        lemma_scan_before(data, out, cmds_end, sig, 32, ncmds as int, start, linkedit);
    }
}

} // verus!
