//! What is reported of each hook declaration.

use vstd::prelude::*;
use vstd::utf8::*;
use crate::text::{
    hex_padded, push_hex_padded, same_chars, string_from_chars, to_chars,
};
use crate::util::macho::format::MachOError;
use crate::util::modmeta::record::{text_of, MetaError};
use super::PrepatchError;

verus! {

/// The kind of a hook declaration.
#[derive(Clone, Copy, Debug, PartialEq, Eq, Structural)]
pub enum RecordKind {
    Library,
    Fn,
    Name,
    Member,
}

impl RecordKind {
    pub fn name(self) -> (r: &'static str)
        ensures
            r@ == match self {
                RecordKind::Library => "library"@,
                RecordKind::Fn => "fn"@,
                RecordKind::Name => "name"@,
                RecordKind::Member => "member"@,
            },
    {
        match self {
            RecordKind::Library => "library",
            RecordKind::Fn => "fn",
            RecordKind::Name => "name",
            RecordKind::Member => "member",
        }
    }
}

/// Whether a hook site is new.
#[derive(Clone, Copy, Debug, PartialEq, Eq, Structural)]
pub enum PatchStatus {
    Added,
    Existing,
}

impl PatchStatus {
    pub fn name(self) -> (r: &'static str)
        ensures
            r@ == match self {
                PatchStatus::Added => "added"@,
                PatchStatus::Existing => "existing"@,
            },
    {
        match self {
            PatchStatus::Added => "added",
            PatchStatus::Existing => "existing",
        }
    }
}

/// Why a symbol has no address in code.
#[derive(Clone, Copy, Debug, PartialEq, Eq, Structural)]
pub enum SymbolFault {
    /// It is not in the embedded manifest.
    NotFound,
    /// It maps to multiple addresses.
    Ambiguous,
    /// It is not a code symbol.
    NotCode,
}

/// Why a vtable has no address in a slot.
#[derive(Clone, Copy, Debug, PartialEq, Eq, Structural)]
pub enum VtableFault {
    NotFound,
    Ambiguous,
    /// The slot's address does not fit 64 bits.
    SlotAddress,
    /// There is no address in the slot.
    Pointer(MachOError),
}

/// Why a target cannot be patched.
#[derive(Clone, Copy, Debug, PartialEq, Eq, Structural)]
pub enum TargetFault {
    /// It begins with other bytes, here as a little-endian number.
    Entry { target: u64, word: u32 },
    /// It is not in the file.
    Unmapped(MachOError),
    /// Its gateway cannot be encoded.
    Gateway(PrepatchError),
}

/// Why a hook declaration fails.
#[derive(Debug)]
pub enum Failure {
    /// The library cannot be read.
    Unreadable,
    /// The library's metadata cannot be parsed.
    Metadata(MetaError),
    /// A function record has no recoverable bind symbol.
    NoSymbol,
    /// The symbol does not resolve.
    Symbol { name: String, fault: SymbolFault },
    /// The display name of a member does not resolve, and there is no slot in the primary vtable.
    Member { display: String, fault: SymbolFault },
    /// Neither the display name of a member resolves nor its slot in the vtable.
    Vtable { display: String, fault: SymbolFault, vtable: String, cause: VtableFault },
    /// The target cannot be patched.
    Target(TargetFault),
}

/// A failure as a plain value.
pub enum FailureView {
    Unreadable,
    Metadata(MetaError),
    NoSymbol,
    Symbol { name: Seq<char>, fault: SymbolFault },
    Member { display: Seq<char>, fault: SymbolFault },
    Vtable { display: Seq<char>, fault: SymbolFault, vtable: Seq<char>, cause: VtableFault },
    Target(TargetFault),
}

impl View for Failure {
    type V = FailureView;

    open spec fn view(&self) -> FailureView {
        match self {
            Failure::Unreadable => FailureView::Unreadable,
            Failure::Metadata(e) => FailureView::Metadata(*e),
            Failure::NoSymbol => FailureView::NoSymbol,
            Failure::Symbol { name, fault } => FailureView::Symbol { name: name@, fault: *fault },
            Failure::Member { display, fault } => FailureView::Member {
                display: display@,
                fault: *fault,
            },
            Failure::Vtable { display, fault, vtable, cause } => FailureView::Vtable {
                display: display@,
                fault: *fault,
                vtable: vtable@,
                cause: *cause,
            },
            Failure::Target(fault) => FailureView::Target(*fault),
        }
    }
}

/// What is reported of a hook declaration.
#[derive(Debug)]
pub struct DeclarationReport {
    pub mod_id: String,
    pub mod_path: String,
    pub record_kind: RecordKind,
    pub name: String,
    pub resolved_target_vmaddr: Option<u64>,
    pub alias_group: Vec<String>,
    pub entry_bytes: Option<Vec<u8>>,
    pub patch_status: Option<PatchStatus>,
    pub gateway_vmaddr: Option<u64>,
    pub orig_stub_vmaddr: Option<u64>,
    pub slot_vmaddr: Option<u64>,
    pub target_to_gateway_distance: Option<i64>,
    pub stub_to_original_distance: Option<i64>,
    pub failure: Option<Failure>,
}

/// What is reported of a hook declaration, as a plain value.
pub struct DeclarationView {
    pub mod_id: Seq<char>,
    pub mod_path: Seq<char>,
    pub record_kind: RecordKind,
    pub name: Seq<char>,
    pub resolved_target_vmaddr: Option<u64>,
    pub alias_group: Seq<Seq<u8>>,
    pub entry_bytes: Option<Seq<u8>>,
    pub patch_status: Option<PatchStatus>,
    pub gateway_vmaddr: Option<u64>,
    pub orig_stub_vmaddr: Option<u64>,
    pub slot_vmaddr: Option<u64>,
    pub target_to_gateway_distance: Option<i64>,
    pub stub_to_original_distance: Option<i64>,
    pub failure: Option<FailureView>,
}

/// The texts of a list of strings, encoded.
pub open spec fn encoded(v: Seq<String>) -> Seq<Seq<u8>> {
    Seq::new(v.len(), |i: int| encode_utf8(v[i]@))
}

impl View for DeclarationReport {
    type V = DeclarationView;

    open spec fn view(&self) -> DeclarationView {
        DeclarationView {
            mod_id: self.mod_id@,
            mod_path: self.mod_path@,
            record_kind: self.record_kind,
            name: self.name@,
            resolved_target_vmaddr: self.resolved_target_vmaddr,
            alias_group: encoded(self.alias_group@),
            entry_bytes: match self.entry_bytes {
                Some(bytes) => Some(bytes@),
                None => None,
            },
            patch_status: self.patch_status,
            gateway_vmaddr: self.gateway_vmaddr,
            orig_stub_vmaddr: self.orig_stub_vmaddr,
            slot_vmaddr: self.slot_vmaddr,
            target_to_gateway_distance: self.target_to_gateway_distance,
            stub_to_original_distance: self.stub_to_original_distance,
            failure: match self.failure {
                Some(failure) => Some(failure@),
                None => None,
            },
        }
    }
}

pub open spec fn declaration_views(declarations: Seq<DeclarationReport>) -> Seq<DeclarationView> {
    Seq::new(declarations.len(), |i: int| declarations[i]@)
}

/// A library of a mod: its path, the stem of its file name, the name of the directory three levels
/// up, and its contents where they could be read.
#[derive(Debug)]
pub struct ModLibrary {
    pub path: String,
    pub stem: Option<String>,
    pub package: Option<String>,
    pub data: Option<Vec<u8>>,
}

/// The name of the mod that a library belongs to: the stem of its file name, or, where that is
/// `mod`, the name of the package directory.
pub open spec fn mod_name(stem: Option<Seq<char>>, package: Option<Seq<char>>) -> Seq<char> {
    match (stem, package) {
        (None, _) => "<unknown>"@,
        (Some(stem), Some(package)) => if stem == "mod"@ {
            package
        } else {
            stem
        },
        (Some(stem), None) => stem,
    }
}

fn name_mod(stem: &Option<String>, package: &Option<String>) -> (r: String)
    ensures
        r@ == mod_name(text_of(*stem), text_of(*package)),
{
    match stem {
        None => string_from_chars(&to_chars("<unknown>")),
        Some(stem) => match package {
            Some(package) => if same_chars(&to_chars(stem.as_str()), &to_chars("mod")) {
                package.clone()
            } else {
                stem.clone()
            },
            None => stem.clone(),
        },
    }
}

/// The report of a declaration of which nothing is known yet.
pub open spec fn new_declaration(
    library: ModLibrary,
    kind: RecordKind,
    name: Seq<char>,
) -> DeclarationView {
    DeclarationView {
        mod_id: mod_name(text_of(library.stem), text_of(library.package)),
        mod_path: library.path@,
        record_kind: kind,
        name,
        resolved_target_vmaddr: None,
        alias_group: Seq::empty(),
        entry_bytes: None,
        patch_status: None,
        gateway_vmaddr: None,
        orig_stub_vmaddr: None,
        slot_vmaddr: None,
        target_to_gateway_distance: None,
        stub_to_original_distance: None,
        failure: None,
    }
}

impl DeclarationReport {
    pub fn new(library: &ModLibrary, record_kind: RecordKind, name: String) -> (r: Self)
        ensures
            r@ == new_declaration(*library, record_kind, name@),
    {
        let alias_group: Vec<String> = Vec::new();
        assert(encoded(alias_group@) =~= Seq::empty());
        DeclarationReport {
            mod_id: name_mod(&library.stem, &library.package),
            mod_path: library.path.clone(),
            record_kind,
            name,
            resolved_target_vmaddr: None,
            alias_group,
            entry_bytes: None,
            patch_status: None,
            gateway_vmaddr: None,
            orig_stub_vmaddr: None,
            slot_vmaddr: None,
            target_to_gateway_distance: None,
            stub_to_original_distance: None,
            failure: None,
        }
    }
}

/// Whether a declaration fails.
pub open spec fn any_failure(declarations: Seq<DeclarationView>) -> bool {
    exists|i: int| 0 <= i < declarations.len() && (#[trigger] declarations[i]).failure is Some
}

/// Whether a declaration fails.
pub fn has_failure(declarations: &[DeclarationReport]) -> (r: bool)
    ensures
        r == any_failure(declaration_views(declarations@)),
{
    let ghost views = declaration_views(declarations@);
    let mut i: usize = 0;
    while i < declarations.len()
        invariant
            i <= declarations@.len(),
            views == declaration_views(declarations@),
            forall|k: int| 0 <= k < i ==> (#[trigger] views[k]).failure is None,
        decreases declarations@.len() - i,
    {
        assert(views[i as int] == declarations@[i as int]@);
        if declarations[i].failure.is_some() {
            return true;
        }
        i = i + 1;
    }
    false
}

/// An address in the report: `0x` and sixteen digits.
pub fn hex_addr(value: u64) -> (r: String)
    ensures
        r@ == seq!['0', 'x'] + hex_padded(value as int, 16),
{
    let mut out: Vec<char> = Vec::new();
    out.push('0');
    out.push('x');
    assert(out@ =~= seq!['0', 'x']);
    push_hex_padded(&mut out, value, 16);
    string_from_chars(&out)
}

/// Bytes in hexadecimal, two digits each.
pub open spec fn hex_of(bytes: Seq<u8>) -> Seq<char>
    decreases bytes.len(),
{
    if bytes.len() == 0 {
        Seq::empty()
    } else {
        hex_of(bytes.drop_last()) + hex_padded(bytes.last() as int, 2)
    }
}

/// Bytes in hexadecimal, two digits each.
pub fn hex_bytes(bytes: &[u8]) -> (r: String)
    ensures
        r@ == hex_of(bytes@),
{
    let mut out: Vec<char> = Vec::new();
    let mut i: usize = 0;
    while i < bytes.len()
        invariant
            i <= bytes@.len(),
            out@ == hex_of(bytes@.subrange(0, i as int)),
        decreases bytes@.len() - i,
    {
        assert(bytes@.subrange(0, i + 1).drop_last() =~= bytes@.subrange(0, i as int));
        push_hex_padded(&mut out, bytes[i] as u64, 2);
        i = i + 1;
    }
    assert(bytes@.subrange(0, bytes@.len() as int) =~= bytes@);
    string_from_chars(&out)
}

} // verus!
