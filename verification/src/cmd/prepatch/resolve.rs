//! Resolution of hook declarations to addresses.

use vstd::prelude::*;
use vstd::utf8::*;
use crate::text::{hex_text, push_hex, string_from_chars, to_chars};
use crate::util::macho::format::MachOError;
use crate::util::macho::image::{pointer_from, ImageModel, MachOImage};
use crate::util::manifest::embedded::{
    found_from, EmbeddedManifest, LookupError, ManifestLookup, ManifestView,
};
use crate::util::manifest::format::FLAG_CODE;
use crate::util::modmeta::library::{library_meta, parse_library};
use crate::util::modmeta::record::{HookTarget, HookView};
use crate::util::modmeta::section::hook_views;
use super::report::{
    any_failure, declaration_views, has_failure, new_declaration, DeclarationReport,
    DeclarationView, Failure, FailureView, ModLibrary, RecordKind, SymbolFault, VtableFault,
};
use super::PrepatchError;

verus! {

/// The address of a looked-up symbol, which has to be one of code.
pub open spec fn code_address(found: Result<ManifestLookup, LookupError>) -> Result<
    u64,
    SymbolFault,
> {
    match found {
        Err(LookupError::NotFound) => Err(SymbolFault::NotFound),
        Err(LookupError::Ambiguous) => Err(SymbolFault::Ambiguous),
        Ok(symbol) => if symbol.flags & FLAG_CODE == 0 {
            Err(SymbolFault::NotCode)
        } else {
            Ok(symbol.vmaddr)
        },
    }
}

/// What a manifest has under a name.
pub open spec fn manifest_symbol(manifest: ManifestView, name: Seq<char>) -> Result<
    ManifestLookup,
    LookupError,
> {
    found_from(manifest.payload, manifest.count, encode_utf8(name), 0)
}

/// Look up a code symbol.
pub fn lookup_code(manifest: &EmbeddedManifest, name: &str) -> (r: Result<u64, SymbolFault>)
    requires
        manifest.is_valid(),
    ensures
        r == code_address(manifest_symbol(manifest@, name@)),
{
    match manifest.lookup(name) {
        Err(LookupError::NotFound) => Err(SymbolFault::NotFound),
        Err(LookupError::Ambiguous) => Err(SymbolFault::Ambiguous),
        Ok(symbol) => if symbol.flags & FLAG_CODE == 0 {
            Err(SymbolFault::NotCode)
        } else {
            Ok(symbol.vmaddr)
        },
    }
}

/// The address that the image's fixups write to a location.
pub open spec fn pointer_at(image: ImageModel, location: u64) -> Result<u64, MachOError> {
    match image.all_fixups() {
        Ok(fixups) => pointer_from(image, fixups, 0, location),
        Err(e) => Err(e),
    }
}

/// The address in a slot of the vtable that a manifest has under a name. The slots follow the offset
/// to the top and the type information.
pub open spec fn slot_address(
    image: ImageModel,
    manifest: ManifestView,
    vtable: Seq<char>,
    slot: u64,
) -> Result<u64, VtableFault> {
    match manifest_symbol(manifest, vtable) {
        Err(LookupError::NotFound) => Err(VtableFault::NotFound),
        Err(LookupError::Ambiguous) => Err(VtableFault::Ambiguous),
        Ok(symbol) => if symbol.vmaddr + 16 + slot > u64::MAX {
            Err(VtableFault::SlotAddress)
        } else {
            match pointer_at(image, (symbol.vmaddr + 16 + slot) as u64) {
                Err(e) => Err(VtableFault::Pointer(e)),
                Ok(target) => Ok(target),
            }
        },
    }
}

fn lookup_slot(image: &MachOImage, manifest: &EmbeddedManifest, vtable: &str, slot: u64) -> (r:
    Result<u64, VtableFault>)
    requires
        manifest.is_valid(),
    ensures
        r == slot_address(image@, manifest@, vtable@, slot),
{
    let symbol: ManifestLookup = match manifest.lookup(vtable) {
        Err(LookupError::NotFound) => return Err(VtableFault::NotFound),
        Err(LookupError::Ambiguous) => return Err(VtableFault::Ambiguous),
        Ok(symbol) => symbol,
    };
    let location: u64 = match symbol.vmaddr.checked_add(16) {
        None => return Err(VtableFault::SlotAddress),
        Some(start) => match start.checked_add(slot) {
            None => return Err(VtableFault::SlotAddress),
            Some(location) => location,
        },
    };
    match image.rebased_pointer(location) {
        Err(e) => Err(VtableFault::Pointer(e)),
        Ok(target) => Ok(target),
    }
}

/// The address of a symbol that a declaration names.
pub open spec fn named_target(manifest: ManifestView, name: Seq<char>) -> Result<
    u64,
    FailureView,
> {
    match code_address(manifest_symbol(manifest, name)) {
        Ok(target) => Ok(target),
        Err(fault) => Err(FailureView::Symbol { name, fault }),
    }
}

/// The address that a hook is for. A member goes by its symbol, else by its display name, and only
/// then by its slot in the vtable.
pub open spec fn target_of(
    image: ImageModel,
    manifest: ManifestView,
    hook: HookView,
) -> Result<u64, FailureView> {
    match hook {
        HookView::Fn { symbol: None } => Err(FailureView::NoSymbol),
        HookView::Fn { symbol: Some(symbol) } => named_target(manifest, symbol),
        HookView::Name { name } => named_target(manifest, name),
        HookView::Mem { vtable, display, symbol: Some(symbol), virtual_slot } => named_target(
            manifest,
            symbol,
        ),
        HookView::Mem { vtable, display, symbol: None, virtual_slot } => match code_address(
            manifest_symbol(manifest, display),
        ) {
            Ok(target) => Ok(target),
            Err(fault) => match virtual_slot {
                None => Err(FailureView::Member { display, fault }),
                Some(slot) => match slot_address(image, manifest, vtable, slot) {
                    Ok(target) => Ok(target),
                    Err(cause) => Err(FailureView::Vtable { display, fault, vtable, cause }),
                },
            },
        },
    }
}

fn lookup_name(manifest: &EmbeddedManifest, name: &String) -> (r: Result<u64, Failure>)
    requires
        manifest.is_valid(),
    ensures
        match r {
            Ok(target) => named_target(manifest@, name@) == Ok::<u64, FailureView>(target),
            Err(e) => named_target(manifest@, name@) == Err::<u64, FailureView>(e@),
        },
{
    match lookup_code(manifest, name.as_str()) {
        Ok(target) => Ok(target),
        Err(fault) => Err(Failure::Symbol { name: name.clone(), fault }),
    }
}

/// Resolve a hook to the address that it is for.
pub fn resolve_target(image: &MachOImage, manifest: &EmbeddedManifest, target: &HookTarget) -> (r:
    Result<u64, Failure>)
    requires
        manifest.is_valid(),
    ensures
        match r {
            Ok(address) => target_of(image@, manifest@, target@) == Ok::<u64, FailureView>(address),
            Err(e) => target_of(image@, manifest@, target@) == Err::<u64, FailureView>(e@),
        },
{
    match target {
        HookTarget::Fn { symbol } => match symbol {
            None => Err(Failure::NoSymbol),
            Some(symbol) => lookup_name(manifest, symbol),
        },
        HookTarget::Name { name } => lookup_name(manifest, name),
        HookTarget::Mem { vtable, display, symbol, virtual_slot } => match symbol {
            Some(symbol) => lookup_name(manifest, symbol),
            None => match lookup_code(manifest, display.as_str()) {
                Ok(address) => Ok(address),
                Err(fault) => match virtual_slot {
                    None => Err(Failure::Member { display: display.clone(), fault }),
                    Some(slot) => match lookup_slot(image, manifest, vtable.as_str(), *slot) {
                        Ok(address) => Ok(address),
                        Err(cause) => Err(
                            Failure::Vtable {
                                display: display.clone(),
                                fault,
                                vtable: vtable.clone(),
                                cause,
                            },
                        ),
                    },
                },
            },
        },
    }
}

/// The kind of a hook, and what it is called in the report.
pub open spec fn label_of(hook: HookView) -> (RecordKind, Seq<char>) {
    match hook {
        HookView::Fn { symbol: Some(symbol) } => (RecordKind::Fn, symbol),
        HookView::Fn { symbol: None } => (RecordKind::Fn, "<fn>"@),
        HookView::Name { name } => (RecordKind::Name, name),
        HookView::Mem { vtable, display, symbol, virtual_slot } => (
            RecordKind::Member,
            match (symbol, virtual_slot) {
                (Some(symbol), _) => display + " ["@ + symbol + "]"@,
                (None, Some(slot)) => display + " [virtual+0x"@ + hex_text(slot as int) + "]"@,
                (None, None) => display,
            },
        ),
    }
}

fn push_text(out: &mut Vec<char>, text: &str)
    ensures
        final(out)@ == old(out)@ + text@,
{
    let mut chars: Vec<char> = to_chars(text);
    out.append(&mut chars);
}

/// The kind of a hook, and what it is called in the report.
pub fn target_label(target: &HookTarget) -> (r: (RecordKind, String))
    ensures
        (r.0, r.1@) == label_of(target@),
{
    match target {
        HookTarget::Fn { symbol } => match symbol {
            Some(symbol) => (RecordKind::Fn, symbol.clone()),
            None => (RecordKind::Fn, string_from_chars(&to_chars("<fn>"))),
        },
        HookTarget::Name { name } => (RecordKind::Name, name.clone()),
        HookTarget::Mem { vtable, display, symbol, virtual_slot } => {
            let mut out: Vec<char> = to_chars(display.as_str());
            match symbol {
                Some(symbol) => {
                    push_text(&mut out, " [");
                    push_text(&mut out, symbol.as_str());
                    push_text(&mut out, "]");
                },
                None => match virtual_slot {
                    Some(slot) => {
                        push_text(&mut out, " [virtual+0x");
                        push_hex(&mut out, *slot);
                        push_text(&mut out, "]");
                    },
                    None => {},
                },
            }
            (RecordKind::Member, string_from_chars(&out))
        },
    }
}

/// A declaration with the address that it is for.
#[derive(Debug)]
pub struct ResolvedDecl {
    pub report_index: usize,
    pub target: u64,
    pub alias: String,
}

/// A declaration with the address that it is for, as a plain value.
pub struct ResolvedView {
    pub report_index: usize,
    pub target: u64,
    pub alias: Seq<char>,
}

impl View for ResolvedDecl {
    type V = ResolvedView;

    open spec fn view(&self) -> ResolvedView {
        ResolvedView { report_index: self.report_index, target: self.target, alias: self.alias@ }
    }
}

pub open spec fn resolved_views(resolved: Seq<ResolvedDecl>) -> Seq<ResolvedView> {
    Seq::new(resolved.len(), |i: int| resolved[i]@)
}

/// The declarations so far, and those of them that have an address.
pub struct Resolution {
    pub declarations: Seq<DeclarationView>,
    pub resolved: Seq<ResolvedView>,
}

/// The resolution with one more hook.
pub open spec fn with_hook(
    so_far: Resolution,
    image: ImageModel,
    manifest: ManifestView,
    library: ModLibrary,
    hook: HookView,
) -> Resolution {
    let (kind, label) = label_of(hook);
    let new = new_declaration(library, kind, label);
    match target_of(image, manifest, hook) {
        Ok(target) => Resolution {
            declarations: so_far.declarations.push(
                DeclarationView { resolved_target_vmaddr: Some(target), ..new },
            ),
            resolved: so_far.resolved.push(
                ResolvedView {
                    report_index: so_far.declarations.len() as usize,
                    target,
                    alias: label,
                },
            ),
        },
        Err(failure) => Resolution {
            declarations: so_far.declarations.push(
                DeclarationView { failure: Some(failure), ..new },
            ),
            resolved: so_far.resolved,
        },
    }
}

/// The resolution with the first `n` hooks of a library.
pub open spec fn with_hooks(
    so_far: Resolution,
    image: ImageModel,
    manifest: ManifestView,
    library: ModLibrary,
    hooks: Seq<HookView>,
    n: int,
) -> Resolution
    decreases n,
{
    if n <= 0 {
        so_far
    } else {
        with_hook(
            with_hooks(so_far, image, manifest, library, hooks, n - 1),
            image,
            manifest,
            library,
            hooks[n - 1],
        )
    }
}

/// The resolution with a library that has no hooks to offer.
pub open spec fn with_failure(
    so_far: Resolution,
    library: ModLibrary,
    failure: FailureView,
) -> Resolution {
    Resolution {
        declarations: so_far.declarations.push(
            DeclarationView {
                failure: Some(failure),
                ..new_declaration(library, RecordKind::Library, "<metadata>"@)
            },
        ),
        resolved: so_far.resolved,
    }
}

/// The resolution with one more library.
pub open spec fn with_library(
    so_far: Resolution,
    image: ImageModel,
    manifest: ManifestView,
    library: ModLibrary,
) -> Resolution {
    match library.data {
        None => with_failure(so_far, library, FailureView::Unreadable),
        Some(data) => match library_meta(data@) {
            Err(e) => with_failure(so_far, library, FailureView::Metadata(e)),
            Ok(meta) => with_hooks(
                so_far,
                image,
                manifest,
                library,
                meta.records.hooks,
                meta.records.hooks.len() as int,
            ),
        },
    }
}

/// The resolution with the first `n` libraries.
pub open spec fn with_libraries(
    so_far: Resolution,
    image: ImageModel,
    manifest: ManifestView,
    libraries: Seq<ModLibrary>,
    n: int,
) -> Resolution
    decreases n,
{
    if n <= 0 {
        so_far
    } else {
        with_library(
            with_libraries(so_far, image, manifest, libraries, n - 1),
            image,
            manifest,
            libraries[n - 1],
        )
    }
}

/// The resolution that a report and a list of declarations hold.
pub open spec fn resolution_view(
    declarations: Seq<DeclarationReport>,
    resolved: Seq<ResolvedDecl>,
) -> Resolution {
    Resolution {
        declarations: declaration_views(declarations),
        resolved: resolved_views(resolved),
    }
}

fn push_failure(declarations: &mut Vec<DeclarationReport>, library: &ModLibrary, failure: Failure)
    ensures
        declaration_views(final(declarations)@) == declaration_views(old(declarations)@).push(
            (DeclarationView {
                failure: Some(failure@),
                ..new_declaration(*library, RecordKind::Library, "<metadata>"@)
            }),
        ),
{
    let mut entry: DeclarationReport = DeclarationReport::new(
        library,
        RecordKind::Library,
        string_from_chars(&to_chars("<metadata>")),
    );
    entry.failure = Some(failure);
    declarations.push(entry);
    assert(declaration_views(declarations@) =~= declaration_views(old(declarations)@).push(entry@));
}

/// Resolve the hooks of a library.
fn resolve_library(
    image: &MachOImage,
    manifest: &EmbeddedManifest,
    library: &ModLibrary,
    hooks: &[HookTarget],
    declarations: &mut Vec<DeclarationReport>,
    resolved: &mut Vec<ResolvedDecl>,
)
    requires
        manifest.is_valid(),
    ensures
        resolution_view(final(declarations)@, final(resolved)@) == with_hooks(
            resolution_view(old(declarations)@, old(resolved)@),
            image@,
            manifest@,
            *library,
            hook_views(hooks@),
            hooks@.len() as int,
        ),
{
    let ghost before = resolution_view(declarations@, resolved@);
    let mut i: usize = 0;
    while i < hooks.len()
        invariant
            i <= hooks@.len(),
            manifest.is_valid(),
            before == resolution_view(old(declarations)@, old(resolved)@),
            resolution_view(declarations@, resolved@) == with_hooks(
                before,
                image@,
                manifest@,
                *library,
                hook_views(hooks@),
                i as int,
            ),
        decreases hooks@.len() - i,
    {
        let ghost known = declaration_views(declarations@);
        let ghost found = resolved_views(resolved@);
        let hook: &HookTarget = &hooks[i];
        assert(hook_views(hooks@)[i as int] == hook@);
        let (kind, label) = target_label(hook);
        let report_index: usize = declarations.len();
        let mut entry: DeclarationReport = DeclarationReport::new(library, kind, label.clone());
        match resolve_target(image, manifest, hook) {
            Ok(target) => {
                entry.resolved_target_vmaddr = Some(target);
                let decl: ResolvedDecl = ResolvedDecl { report_index, target, alias: label };
                resolved.push(decl);
                assert(resolved_views(resolved@) =~= found.push(decl@));
            },
            Err(failure) => {
                entry.failure = Some(failure);
            },
        }
        declarations.push(entry);
        assert(declaration_views(declarations@) =~= known.push(entry@));
        i = i + 1;
    }
}

/// Resolve the hooks of all libraries. The report gets a declaration for each hook, and for each
/// library that has none to offer.
pub fn resolve_hooks(
    libraries: &[ModLibrary],
    image: &MachOImage,
    manifest: &EmbeddedManifest,
    declarations: &mut Vec<DeclarationReport>,
) -> (r: Result<Vec<ResolvedDecl>, PrepatchError>)
    requires
        manifest.is_valid(),
    ensures
        ({
            let all = with_libraries(
                Resolution {
                    declarations: declaration_views(old(declarations)@),
                    resolved: Seq::empty(),
                },
                image@,
                manifest@,
                libraries@,
                libraries@.len() as int,
            );
            &&& declaration_views(final(declarations)@) == all.declarations
            &&& match r {
                Ok(resolved) => !any_failure(all.declarations) && resolved_views(resolved@)
                    == all.resolved,
                Err(e) => any_failure(all.declarations) && e == PrepatchError::Unresolved,
            }
        }),
{
    let mut resolved: Vec<ResolvedDecl> = Vec::new();
    let ghost before = resolution_view(declarations@, resolved@);
    assert(resolved_views(resolved@) =~= Seq::empty());
    let mut i: usize = 0;
    while i < libraries.len()
        invariant
            i <= libraries@.len(),
            manifest.is_valid(),
            before == (Resolution {
                declarations: declaration_views(old(declarations)@),
                resolved: Seq::empty(),
            }),
            resolution_view(declarations@, resolved@) == with_libraries(
                before,
                image@,
                manifest@,
                libraries@,
                i as int,
            ),
        decreases libraries@.len() - i,
    {
        let library: &ModLibrary = &libraries[i];
        match &library.data {
            None => push_failure(declarations, library, Failure::Unreadable),
            Some(data) => match parse_library(data) {
                Err(e) => push_failure(declarations, library, Failure::Metadata(e)),
                Ok(meta) => resolve_library(
                    image,
                    manifest,
                    library,
                    &meta.hooks,
                    declarations,
                    &mut resolved,
                ),
            },
        }
        i = i + 1;
    }
    if has_failure(declarations) {
        return Err(PrepatchError::Unresolved);
    }
    Ok(resolved)
}

} // verus!
