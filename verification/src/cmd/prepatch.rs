//! Package-time AArch64 hook gateway preparation for Apple platforms.

pub mod added;
pub mod apply;
pub mod arena;
pub mod disjoint;
pub mod grown;
pub mod image;
pub mod laws;
pub mod plan;
pub mod plan_laws;
pub mod report;
pub mod reread;
pub mod rescan;
pub mod resolve;
pub mod resolve_laws;
pub mod running;
pub mod site;

use vstd::prelude::*;
use crate::order::{distinct_order, keys, sorted_form};
use crate::util::arm64::Arm64Error;
use crate::util::macho::format::MachOError;
use crate::util::macho::image::{ImageModel, MachOImage};
use crate::util::manifest::embedded::{embedded_in, EmbeddedManifest, ManifestView};
use crate::util::manifest::format::ManifestError;
use crate::util::modmeta::library::library_meta;
use crate::util::modmeta::record::HookView;
use self::apply::{applied, apply_prepatch};
use self::image::{parse_image, preparable_image};
use self::plan::{in_report, plan_prepatch, planned, PrepatchPlan};
use self::report::{
    any_failure, declaration_views, hex_bytes, hex_of, DeclarationReport, DeclarationView,
    ModLibrary, PatchStatus,
};
use self::resolve::{resolve_hooks, with_hooks, with_libraries, Resolution, ResolvedDecl};

verus! {

/// Why an image cannot be prepared. A pair of numbers is an arena's generation and a record's place
/// in it.
#[derive(Clone, Copy, Debug, PartialEq, Eq, Structural)]
pub enum PrepatchError {
    /// The image cannot be read.
    Image(MachOError),
    /// The image is for another CPU.
    NotArm64(u32),
    /// arm64e and pointer-authenticated images are not supported.
    PointerAuth,
    /// Only macOS, iOS and tvOS images are supported.
    Platform,
    /// The embedded manifest cannot be read.
    Manifest(ManifestError),
    /// A segment size does not fit 64 bits.
    SegmentSize,
    /// An arena would have more records than can be counted.
    ArenaCapacity,
    GatewayAddress,
    StubAddress,
    OriginalAddress,
    /// A gateway instruction cannot be encoded.
    Encoding(Arm64Error),
    /// The target is too far from the gateway.
    TargetRange,
    /// The slot is too far from the gateway.
    SlotRange,
    /// Two arenas have the same generation.
    DuplicateGeneration(u32),
    /// Code and data arenas do not match.
    GenerationMismatch,
    /// A code arena is not exactly readable and executable.
    CodeProtection(u32),
    /// A data arena is not exactly readable and writable.
    DataProtection(u32),
    /// An arena has another header.
    ArenaHeader(u32),
    /// An arena has no records, or records of another size.
    ArenaShape(u32),
    /// An arena reaches beyond its segments.
    ArenaBacking(u32),
    RecordAddress,
    SlotAddress,
    /// A free record has a slot that is not zero.
    FreeSlot(u32, u32),
    /// A record has another header.
    RecordHeader(u32, u32),
    /// A record has a slot that is not zero in the file.
    FileSlot(u32, u32),
    TargetAddress,
    GatewaySlotAddress,
    /// A record points at another slot.
    WrongSlot(u32, u32),
    /// A record's target is not executable.
    TargetProtection(u32, u32),
    /// A record's gateway has other bytes.
    GatewayBytes(u32, u32),
    /// A record's branch is not at its target.
    NotInstalled(u32, u32),
    /// A target is in two records.
    DuplicateTarget(u64),
    /// There is no generation behind the last one.
    GenerationOverflow,
    /// Hook declarations could not be resolved.
    Unresolved,
    /// Hook targets do not satisfy the patchable-entry contract.
    NotPatchable,
    /// Hook targets are not branch-reachable.
    Unreachable,
    /// There are more hook sites than can be counted.
    SiteCount,
    /// The data arena does not fit the address space.
    DataAddress,
    /// The image would not fit the host's memory.
    HostSpace,
    /// The arenas were inserted elsewhere.
    Placement,
}

/// Why an image is not prepared.
#[derive(Clone, Copy, Debug, PartialEq, Eq, Structural)]
pub enum PrepatchFault {
    /// The image cannot be read.
    Unreadable,
    Prepatch(PrepatchError),
    /// The prepared image cannot be parsed again.
    Reparse(PrepatchError),
    /// The prepared image has invalid arenas.
    Arenas(PrepatchError),
    /// The prepared image has lost its manifest.
    Manifest(ManifestError),
}

/// Prepare package-time hook gateways in a thin arm64 Apple executable.
#[derive(PartialEq, Eq, Debug)]
pub struct Args {
    /// Thin arm64 Mach-O game executable.
    pub binary: String,
    /// Where a deterministic JSON audit report is written.
    pub report: Option<String>,
    /// Validate and report without replacing the executable.
    pub check: bool,
    /// Staged bundled native mod libraries.
    pub mods: Vec<String>,
}

/// The audit report.
#[derive(Debug)]
pub struct Report {
    pub binary: String,
    pub mode: &'static str,
    pub build_uuid: Option<String>,
    pub declarations: Vec<DeclarationReport>,
    pub failures: Vec<PrepatchFault>,
}

/// What preparing an image comes to.
pub struct Executed {
    pub build_uuid: Option<Seq<char>>,
    pub declarations: Seq<DeclarationView>,
    pub outcome: Result<Option<Seq<u8>>, PrepatchFault>,
}

/// All hooks of the libraries, resolved in an image.
pub open spec fn all_resolved(
    image: ImageModel,
    manifest: ManifestView,
    libraries: Seq<ModLibrary>,
    declarations: Seq<DeclarationView>,
) -> Resolution {
    with_libraries(
        Resolution { declarations, resolved: Seq::empty() },
        image,
        manifest,
        libraries,
        libraries.len() as int,
    )
}

/// What preparing an image comes to once its hooks are resolved.
pub open spec fn executed_plan(
    original: Seq<u8>,
    image: ImageModel,
    build_uuid: Option<Seq<char>>,
    resolution: Resolution,
) -> Executed {
    let plan = planned(image, resolution.resolved, resolution.declarations);
    if any_failure(resolution.declarations) {
        Executed {
            build_uuid,
            declarations: resolution.declarations,
            outcome: Err(PrepatchFault::Prepatch(PrepatchError::Unresolved)),
        }
    } else {
        Executed {
            build_uuid,
            declarations: plan.declarations,
            outcome: match plan.outcome {
                Err(e) => Err(PrepatchFault::Prepatch(e)),
                Ok(None) => Ok(None),
                Ok(Some(plan)) => match applied(original, image, plan) {
                    Err(e) => Err(e),
                    Ok(out) => Ok(Some(out)),
                },
            },
        }
    }
}

/// What preparing an image comes to: the report, and the prepared image where anything is added.
pub open spec fn executed(
    original: Seq<u8>,
    libraries: Seq<ModLibrary>,
    build_uuid: Option<Seq<char>>,
    declarations: Seq<DeclarationView>,
) -> Executed {
    match (preparable_image(original), embedded_in(original)) {
        (Err(e), _) => Executed {
            build_uuid,
            declarations,
            outcome: Err(PrepatchFault::Prepatch(e)),
        },
        (_, Err(e)) => Executed {
            build_uuid,
            declarations,
            outcome: Err(PrepatchFault::Prepatch(PrepatchError::Manifest(e))),
        },
        (Ok(image), Ok((payload, count, uuid))) => executed_plan(
            original,
            image,
            Some(hex_of(uuid)),
            all_resolved(image, ManifestView { payload, count }, libraries, declarations),
        ),
    }
}

/// The text of a report's build UUID.
pub open spec fn uuid_text(uuid: Option<String>) -> Option<Seq<char>> {
    match uuid {
        Some(uuid) => Some(uuid@),
        None => None,
    }
}

proof fn lemma_hooks_grow(
    so_far: Resolution,
    image: ImageModel,
    manifest: ManifestView,
    library: ModLibrary,
    hooks: Seq<HookView>,
    n: int,
)
    ensures
        so_far.declarations.len() <= with_hooks(
            so_far,
            image,
            manifest,
            library,
            hooks,
            n,
        ).declarations.len(),
    decreases n,
{
    if n > 0 {
        lemma_hooks_grow(so_far, image, manifest, library, hooks, n - 1);
    }
}

proof fn lemma_hooks_in_report(
    so_far: Resolution,
    image: ImageModel,
    manifest: ManifestView,
    library: ModLibrary,
    hooks: Seq<HookView>,
    n: int,
)
    requires
        in_report(so_far.resolved, so_far.declarations.len() as int),
        with_hooks(so_far, image, manifest, library, hooks, n).declarations.len() <= usize::MAX,
    ensures
        so_far.declarations.len() <= with_hooks(
            so_far,
            image,
            manifest,
            library,
            hooks,
            n,
        ).declarations.len(),
        in_report(
            with_hooks(so_far, image, manifest, library, hooks, n).resolved,
            with_hooks(so_far, image, manifest, library, hooks, n).declarations.len() as int,
        ),
    decreases n,
{
    if n > 0 {
        lemma_hooks_in_report(so_far, image, manifest, library, hooks, n - 1);
    }
}

proof fn lemma_libraries_in_report(
    so_far: Resolution,
    image: ImageModel,
    manifest: ManifestView,
    libraries: Seq<ModLibrary>,
    n: int,
)
    requires
        in_report(so_far.resolved, so_far.declarations.len() as int),
        with_libraries(so_far, image, manifest, libraries, n).declarations.len() <= usize::MAX,
    ensures
        so_far.declarations.len() <= with_libraries(
            so_far,
            image,
            manifest,
            libraries,
            n,
        ).declarations.len(),
        in_report(
            with_libraries(so_far, image, manifest, libraries, n).resolved,
            with_libraries(so_far, image, manifest, libraries, n).declarations.len() as int,
        ),
    decreases n,
{
    if n > 0 {
        let before = with_libraries(so_far, image, manifest, libraries, n - 1);
        let library = libraries[n - 1];
        match library.data {
            Some(data) => match library_meta(data@) {
                Ok(meta) => {
                    lemma_hooks_grow(
                        before,
                        image,
                        manifest,
                        library,
                        meta.records.hooks,
                        meta.records.hooks.len() as int,
                    );
                },
                Err(_) => {},
            },
            None => {},
        }
        lemma_libraries_in_report(so_far, image, manifest, libraries, n - 1);
        match library.data {
            Some(data) => match library_meta(data@) {
                Ok(meta) => {
                    lemma_hooks_in_report(
                        before,
                        image,
                        manifest,
                        library,
                        meta.records.hooks,
                        meta.records.hooks.len() as int,
                    );
                },
                Err(_) => {},
            },
            None => {},
        }
    }
}

/// Prepare an image for the hooks of the given libraries.
pub fn execute(original: &[u8], libraries: &[ModLibrary], report: &mut Report) -> (r: Result<
    Option<Vec<u8>>,
    PrepatchFault,
>)
    ensures
        final(report).binary == old(report).binary,
        final(report).mode == old(report).mode,
        final(report).failures == old(report).failures,
        ({
            let all = executed(
                original@,
                libraries@,
                uuid_text(old(report).build_uuid),
                declaration_views(old(report).declarations@),
            );
            &&& uuid_text(final(report).build_uuid) == all.build_uuid
            &&& declaration_views(final(report).declarations@) == all.declarations
            &&& all.outcome == match r {
                Ok(Some(out)) => Ok::<Option<Seq<u8>>, PrepatchFault>(Some(out@)),
                Ok(None) => Ok(None),
                Err(e) => Err(e),
            }
        }),
{
    let image: MachOImage<'_> = match parse_image(original) {
        Ok(image) => image,
        Err(e) => return Err(PrepatchFault::Prepatch(e)),
    };
    let manifest: EmbeddedManifest = match EmbeddedManifest::parse_macho(original) {
        Ok(manifest) => manifest,
        Err(e) => return Err(PrepatchFault::Prepatch(PrepatchError::Manifest(e))),
    };
    report.build_uuid = Some(hex_bytes(&manifest.build_uuid));
    let ghost before = declaration_views(report.declarations@);
    let resolved: Vec<ResolvedDecl> = match resolve_hooks(
        libraries,
        &image,
        &manifest,
        &mut report.declarations,
    ) {
        Ok(resolved) => resolved,
        Err(e) => return Err(PrepatchFault::Prepatch(e)),
    };
    proof {
        assert(report.declarations.len() <= usize::MAX);
        lemma_libraries_in_report(
            Resolution { declarations: before, resolved: Seq::empty() },
            image@,
            manifest@,
            libraries@,
            libraries@.len() as int,
        );
    }
    let plan: PrepatchPlan = match plan_prepatch(&image, &resolved, &mut report.declarations) {
        Ok(Some(plan)) => plan,
        Ok(None) => return Ok(None),
        Err(e) => return Err(PrepatchFault::Prepatch(e)),
    };
    match apply_prepatch(original, &image, &plan) {
        Ok(out) => Ok(Some(out)),
        Err(e) => Err(e),
    }
}

/// The targets of the first `n` declarations that have the given status.
pub open spec fn targets_with(
    declarations: Seq<DeclarationView>,
    status: PatchStatus,
    n: int,
) -> Seq<u64>
    decreases n,
{
    if n <= 0 {
        Seq::empty()
    } else {
        match (
            declarations[n - 1].patch_status == Some(status),
            declarations[n - 1].resolved_target_vmaddr,
        ) {
            (true, Some(target)) => targets_with(declarations, status, n - 1).push(target),
            _ => targets_with(declarations, status, n - 1),
        }
    }
}

/// How many targets have the given status.
pub open spec fn site_count(declarations: Seq<DeclarationView>, status: PatchStatus) -> nat {
    sorted_form::<u64>(targets_with(declarations, status, declarations.len() as int)).len()
}

/// Count the targets that have the given status.
pub fn count_sites(declarations: &[DeclarationReport], status: PatchStatus) -> (r: usize)
    ensures
        r == site_count(declaration_views(declarations@), status),
{
    let ghost views = declaration_views(declarations@);
    let mut targets: Vec<u64> = Vec::new();
    let mut i: usize = 0;
    while i < declarations.len()
        invariant
            i <= declarations@.len(),
            views == declaration_views(declarations@),
            targets@ == targets_with(views, status, i as int),
        decreases declarations@.len() - i,
    {
        assert(views[i as int] == declarations@[i as int]@);
        let is_counted: bool = match declarations[i].patch_status {
            Some(s) => s == status,
            None => false,
        };
        if is_counted {
            match declarations[i].resolved_target_vmaddr {
                Some(target) => targets.push(target),
                None => {},
            }
        }
        i = i + 1;
    }
    let places: Vec<usize> = distinct_order(&targets);
    assert(keys(targets@) =~= targets@);
    places.len()
}

/// What is left to do with an image.
#[derive(Debug)]
pub enum Action {
    /// Replace the executable.
    Replace { data: Vec<u8>, added: usize, existing: usize },
    /// The check passed for so many declarations.
    Checked { declarations: usize },
    /// All requested sites are there already.
    Existing { existing: usize },
    /// There are no hook declarations.
    Nothing,
}

/// What is left to do with an image, as a plain value.
pub enum ActionView {
    Replace { data: Seq<u8>, added: nat, existing: nat },
    Checked { declarations: nat },
    Existing { existing: nat },
    Nothing,
}

impl View for Action {
    type V = ActionView;

    open spec fn view(&self) -> ActionView {
        match self {
            Action::Replace { data, added, existing } => ActionView::Replace {
                data: data@,
                added: *added as nat,
                existing: *existing as nat,
            },
            Action::Checked { declarations } => ActionView::Checked {
                declarations: *declarations as nat,
            },
            Action::Existing { existing } => ActionView::Existing { existing: *existing as nat },
            Action::Nothing => ActionView::Nothing,
        }
    }
}

/// What is left to do with an image: a check replaces nothing.
pub open spec fn action_for(
    check: bool,
    output: Option<Seq<u8>>,
    declarations: Seq<DeclarationView>,
) -> ActionView {
    let added = site_count(declarations, PatchStatus::Added);
    let existing = site_count(declarations, PatchStatus::Existing);
    match output {
        Some(data) => if check {
            ActionView::Checked { declarations: declarations.len() }
        } else {
            ActionView::Replace { data, added, existing }
        },
        None => if existing != 0 {
            ActionView::Existing { existing }
        } else {
            ActionView::Nothing
        },
    }
}

/// What preparing an executable comes to, where it could be read.
pub open spec fn run_outcome(binary: Option<Seq<u8>>, libraries: Seq<ModLibrary>) -> Executed {
    match binary {
        None => Executed {
            build_uuid: None,
            declarations: Seq::empty(),
            outcome: Err(PrepatchFault::Unreadable),
        },
        Some(original) => executed(original, libraries, None, Seq::empty()),
    }
}

/// Prepare an executable for the hooks of the given libraries: the report to write, and what is left
/// to do.
pub fn run(args: &Args, binary: Option<Vec<u8>>, libraries: &[ModLibrary]) -> (r: (
    Report,
    Result<Action, PrepatchFault>,
))
    ensures
        ({
            let all = run_outcome(
                match binary {
                    Some(data) => Some(data@),
                    None => None,
                },
                libraries@,
            );
            &&& r.0.binary@ == args.binary@
            &&& r.0.mode@ == if args.check {
                "check"@
            } else {
                "rewrite"@
            }
            &&& uuid_text(r.0.build_uuid) == all.build_uuid
            &&& declaration_views(r.0.declarations@) == all.declarations
            &&& match (all.outcome, r.1) {
                (Ok(output), Ok(action)) => r.0.failures@.len() == 0 && action@ == action_for(
                    args.check,
                    output,
                    all.declarations,
                ),
                (Err(e), Err(f)) => e == f && r.0.failures@ == seq![e],
                _ => false,
            }
        }),
{
    let declarations: Vec<DeclarationReport> = Vec::new();
    let failures: Vec<PrepatchFault> = Vec::new();
    assert(declaration_views(declarations@) =~= Seq::empty());
    let mut report: Report = Report {
        binary: args.binary.clone(),
        mode: if args.check {
            "check"
        } else {
            "rewrite"
        },
        build_uuid: None,
        declarations,
        failures,
    };
    let outcome: Result<Option<Vec<u8>>, PrepatchFault> = match binary {
        None => Err(PrepatchFault::Unreadable),
        Some(original) => execute(&original, libraries, &mut report),
    };
    match outcome {
        Err(e) => {
            report.failures.push(e);
            assert(report.failures@ =~= seq![e]);
            (report, Err(e))
        },
        Ok(output) => {
            let added: usize = count_sites(&report.declarations, PatchStatus::Added);
            let existing: usize = count_sites(&report.declarations, PatchStatus::Existing);
            let action: Action = match output {
                Some(data) => if args.check {
                    Action::Checked { declarations: report.declarations.len() }
                } else {
                    Action::Replace { data, added, existing }
                },
                None => if existing != 0 {
                    Action::Existing { existing }
                } else {
                    Action::Nothing
                },
            };
            (report, Ok(action))
        },
    }
}

} // verus!
