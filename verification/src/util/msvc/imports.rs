//! The import address table of a PE image.

use object::pe::ImageNtHeaders64;
use object::read::pe::{Import, PeFile64};
use vstd::prelude::*;
use crate::text::{lossy_string, shown_text};
use crate::util::objfile::{file_base, file_kind, read_base, read_kind, ImageKind};

verus! {

/// Why imports cannot be told.
#[derive(Clone, Copy, Debug, PartialEq, Eq, Structural)]
pub enum ImportError {
    /// The import table cannot be read.
    Malformed,
    /// An import address does not fit 64 bits.
    AddressOverflow,
}

/// The lookup tables and address tables of the import descriptors that `object` finds in a PE image:
/// nothing where they cannot be read, none where there is no import table.
pub uninterp spec fn import_descriptors(data: Seq<u8>) -> Option<Seq<(u32, u32)>>;

/// The imports that `object` finds in the import table at an address: a name, or none for an import
/// by ordinal. Nothing where they cannot be read.
pub uninterp spec fn import_thunks(data: Seq<u8>, address: u32) -> Option<Seq<Option<Seq<u8>>>>;

/// `object::read::pe::ImportTable::descriptors`: the lookup table and the address table of each
/// import descriptor, under the name of the result.
#[verifier::external_body]
fn read_descriptors(data: &[u8]) -> (r: Option<Vec<(u32, u32)>>)
    ensures
        match r {
            Some(tables) => import_descriptors(data@) == Some(tables@),
            None => import_descriptors(data@) is None,
        },
{
    let pe = PeFile64::parse(data).ok()?;
    let Some(table) = pe.import_table().ok()? else { return Some(Vec::new()) };
    let descriptors = table.descriptors().ok()?.map(|descriptor| {
        let descriptor = descriptor.ok()?;
        let lookup = descriptor.original_first_thunk.get(object::LittleEndian);
        Some((lookup, descriptor.first_thunk.get(object::LittleEndian)))
    });
    descriptors.collect()
}

/// The imports as plain values.
pub open spec fn thunk_views(thunks: Seq<Option<Vec<u8>>>) -> Seq<Option<Seq<u8>>> {
    Seq::new(
        thunks.len(),
        |i: int|
            match thunks[i] {
                Some(name) => Some(name@),
                None => None,
            },
    )
}

/// `object::read::pe::ImportTable::thunks`: the imports at an address, under the name of the result.
#[verifier::external_body]
fn read_thunks(data: &[u8], address: u32) -> (r: Option<Vec<Option<Vec<u8>>>>)
    ensures
        match r {
            Some(thunks) => import_thunks(data@, address) == Some(thunk_views(thunks@)),
            None => import_thunks(data@, address) is None,
        },
{
    let table = PeFile64::parse(data).ok()?.import_table().ok()??;
    let mut thunks = table.thunks(address).ok()?;
    let mut found = Vec::new();
    while let Some(thunk) = thunks.next::<ImageNtHeaders64>().ok()? {
        found.push(match table.import::<ImageNtHeaders64>(thunk).ok()? {
            Import::Ordinal(_) => None,
            Import::Name(_, name) => Some(name.to_vec()),
        });
    }
    Some(found)
}

/// An import address table: for each slot, its address and the symbol that it holds. The last entry
/// of an address counts.
pub open spec fn slot_symbol(slots: Seq<(u64, Seq<char>)>, address: u64) -> Option<Seq<char>>
    decreases slots.len(),
{
    if slots.len() == 0 {
        None
    } else if slots.last().0 == address {
        Some(slots.last().1)
    } else {
        slot_symbol(slots.drop_last(), address)
    }
}

/// The slots of the first `n` imports of a table.
pub open spec fn table_slots(
    thunks: Seq<Option<Seq<u8>>>,
    base: u64,
    table: u32,
    n: int,
) -> Result<Seq<(u64, Seq<char>)>, ImportError>
    decreases n,
{
    if n <= 0 {
        Ok(Seq::empty())
    } else {
        match table_slots(thunks, base, table, n - 1) {
            Err(e) => Err(e),
            Ok(before) => match thunks[n - 1] {
                None => Ok(before),
                Some(name) => if base + table + 8 * (n - 1) > u64::MAX {
                    Err(ImportError::AddressOverflow)
                } else {
                    Ok(before.push(((base + table + 8 * (n - 1)) as u64, shown_text(name))))
                },
            },
        }
    }
}

/// The slots of the first `n` descriptors.
pub open spec fn descriptor_slots(
    data: Seq<u8>,
    base: u64,
    descriptors: Seq<(u32, u32)>,
    n: int,
) -> Result<Seq<(u64, Seq<char>)>, ImportError>
    decreases n,
{
    if n <= 0 {
        Ok(Seq::empty())
    } else {
        match descriptor_slots(data, base, descriptors, n - 1) {
            Err(e) => Err(e),
            Ok(before) => {
                let (lookup, table) = descriptors[n - 1];
                let names = if lookup == 0 {
                    table
                } else {
                    lookup
                };
                match import_thunks(data, names) {
                    None => Err(ImportError::Malformed),
                    Some(thunks) => match table_slots(thunks, base, table, thunks.len() as int) {
                        Err(e) => Err(e),
                        Ok(slots) => Ok(before + slots),
                    },
                }
            },
        }
    }
}

/// The import address table of an image. A non-virtual game method normally resolves through a
/// local import thunk to one of its slots. Only PE64 images have one.
pub open spec fn import_slots(data: Seq<u8>) -> Result<Seq<(u64, Seq<char>)>, ImportError> {
    if file_kind(data) != Some(ImageKind::Pe64) {
        Ok(Seq::empty())
    } else {
        match (import_descriptors(data), file_base(data)) {
            (Some(descriptors), Some(base)) => descriptor_slots(
                data,
                base,
                descriptors,
                descriptors.len() as int,
            ),
            _ => Err(ImportError::Malformed),
        }
    }
}

/// The slots as plain values.
pub open spec fn slot_views(slots: Seq<(u64, String)>) -> Seq<(u64, Seq<char>)> {
    Seq::new(slots.len(), |i: int| (slots[i].0, slots[i].1@))
}

proof fn lemma_table_error(thunks: Seq<Option<Seq<u8>>>, base: u64, table: u32, n: int, m: int)
    requires
        0 <= n <= m,
        table_slots(thunks, base, table, n) is Err,
    ensures
        table_slots(thunks, base, table, m) == table_slots(thunks, base, table, n),
    decreases m,
{
    if n < m {
        lemma_table_error(thunks, base, table, n, m - 1);
    }
}

/// Append the slots of the imports of a table.
pub fn push_slots(
    out: &mut Vec<(u64, String)>,
    thunks: &[Option<Vec<u8>>],
    base: u64,
    table: u32,
) -> (r: Result<(), ImportError>)
    ensures
        ({
            let wanted = table_slots(thunk_views(thunks@), base, table, thunks@.len() as int);
            match r {
                Ok(_) => wanted matches Ok(slots) && slot_views(final(out)@) == slot_views(
                    old(out)@,
                ) + slots,
                Err(e) => wanted == Err::<Seq<(u64, Seq<char>)>, ImportError>(e),
            }
        }),
{
    let ghost all = thunk_views(thunks@);
    let ghost before = slot_views(out@);
    let mut i: usize = 0;
    assert(before =~= before + Seq::<(u64, Seq<char>)>::empty());
    while i < thunks.len()
        invariant
            i <= thunks@.len(),
            all == thunk_views(thunks@),
            before == slot_views(old(out)@),
            table_slots(all, base, table, i as int) matches Ok(slots) && slot_views(out@) == before
                + slots,
        decreases thunks@.len() - i,
    {
        let ghost so_far = table_slots(all, base, table, i as int)->Ok_0;
        match &thunks[i] {
            None => {
                assert(all[i as int] is None);
            },
            Some(name) => {
                assert(all[i as int] == Some(name@));
                let address: u128 = base as u128 + table as u128 + 8 * (i as u128);
                if address > u64::MAX as u128 {
                    proof {
                        lemma_table_error(all, base, table, i + 1, thunks@.len() as int);
                    }
                    return Err(ImportError::AddressOverflow);
                }
                let ghost now = slot_views(out@);
                out.push((address as u64, lossy_string(name)));
                assert(slot_views(out@) =~= now.push((address as u64, shown_text(name@))));
                assert(slot_views(out@) =~= before + so_far.push(
                    (address as u64, shown_text(name@)),
                ));
            },
        }
        i = i + 1;
    }
    Ok(())
}

proof fn lemma_descriptor_error(
    data: Seq<u8>,
    base: u64,
    descriptors: Seq<(u32, u32)>,
    n: int,
    m: int,
)
    requires
        0 <= n <= m,
        descriptor_slots(data, base, descriptors, n) is Err,
    ensures
        descriptor_slots(data, base, descriptors, m) == descriptor_slots(
            data,
            base,
            descriptors,
            n,
        ),
    decreases m,
{
    if n < m {
        lemma_descriptor_error(data, base, descriptors, n, m - 1);
    }
}

/// Append the slots of one descriptor.
fn push_descriptor(out: &mut Vec<(u64, String)>, data: &[u8], base: u64, tables: (u32, u32)) -> (r:
    Result<(), ImportError>)
    ensures
        ({
            let names = if tables.0 == 0 {
                tables.1
            } else {
                tables.0
            };
            match import_thunks(data@, names) {
                None => r == Err::<(), ImportError>(ImportError::Malformed),
                Some(thunks) => match table_slots(thunks, base, tables.1, thunks.len() as int) {
                    Err(e) => r == Err::<(), ImportError>(e),
                    Ok(slots) => r is Ok && slot_views(final(out)@) == slot_views(old(out)@)
                        + slots,
                },
            }
        }),
{
    let (lookup, table) = tables;
    let names: u32 = if lookup == 0 {
        table
    } else {
        lookup
    };
    match read_thunks(data, names) {
        None => Err(ImportError::Malformed),
        Some(thunks) => {
            assert(thunk_views(thunks@).len() == thunks@.len());
            push_slots(out, &thunks, base, table)
        },
    }
}

/// Read the import address table of an image.
pub fn collect_pe_iat_symbols(data: &[u8]) -> (r: Result<Vec<(u64, String)>, ImportError>)
    ensures
        match r {
            Ok(slots) => import_slots(data@) == Ok::<Seq<(u64, Seq<char>)>, ImportError>(
                slot_views(slots@),
            ),
            Err(e) => import_slots(data@) == Err::<Seq<(u64, Seq<char>)>, ImportError>(e),
        },
{
    let mut out: Vec<(u64, String)> = Vec::new();
    assert(slot_views(out@) =~= Seq::empty());
    match read_kind(data) {
        Some(ImageKind::Pe64) => {},
        _ => return Ok(out),
    }
    let descriptors: Vec<(u32, u32)> = match read_descriptors(data) {
        Some(descriptors) => descriptors,
        None => return Err(ImportError::Malformed),
    };
    let base: u64 = match read_base(data) {
        Some(base) => base,
        None => return Err(ImportError::Malformed),
    };
    let mut i: usize = 0;
    while i < descriptors.len()
        invariant
            i <= descriptors@.len(),
            import_slots(data@) == descriptor_slots(
                data@,
                base,
                descriptors@,
                descriptors@.len() as int,
            ),
            descriptor_slots(data@, base, descriptors@, i as int) == Ok::<
                Seq<(u64, Seq<char>)>,
                ImportError,
            >(slot_views(out@)),
        decreases descriptors@.len() - i,
    {
        match push_descriptor(&mut out, data, base, descriptors[i]) {
            Ok(_) => {},
            Err(e) => {
                proof {
                    lemma_descriptor_error(
                        data@,
                        base,
                        descriptors@,
                        i + 1,
                        descriptors@.len() as int,
                    );
                }
                return Err(e);
            },
        }
        i = i + 1;
    }
    Ok(out)
}

/// Find the symbol of a slot.
pub fn find_slot(slots: &[(u64, String)], address: u64) -> (r: Option<usize>)
    ensures
        match r {
            Some(i) => i < slots@.len() && slot_symbol(slot_views(slots@), address) == Some(
                slots@[i as int].1@,
            ),
            None => slot_symbol(slot_views(slots@), address) is None,
        },
{
    let ghost all = slot_views(slots@);
    let mut n: usize = slots.len();
    assert(all.subrange(0, all.len() as int) =~= all);
    while n > 0
        invariant
            n <= slots@.len(),
            all == slot_views(slots@),
            slot_symbol(all.subrange(0, n as int), address) == slot_symbol(all, address),
        decreases n,
    {
        let ghost now = all.subrange(0, n as int);
        assert(now.last() == (slots@[n - 1].0, slots@[n - 1].1@));
        assert(now.drop_last() =~= all.subrange(0, n - 1));
        if slots[n - 1].0 == address {
            return Some(n - 1);
        }
        n = n - 1;
    }
    None
}

} // verus!
