//! Dumping and validating native mod metadata.

pub mod laws;
pub mod update;

use vstd::prelude::*;
use vstd::utf8::*;
use crate::order::{
    bytes_less, bytes_lt, is_order, lemma_bytes_lt_irreflexive, lemma_bytes_lt_total,
    lemma_bytes_lt_transitive, order_of, Ranked,
};
use crate::text::{same_chars, to_chars};
use crate::util::modmeta::agreement::AgreementError;
use crate::util::modmeta::library::{library_meta, meta_view, parse_library, MetaView};
use crate::util::modmeta::record::{Export, Import, MetaError, ServiceView};
use crate::util::modmeta::section::{export_views, import_views, MetaFile};

verus! {

/// What to do.
#[derive(PartialEq, Eq, Debug)]
pub struct Args {
    /// Native mod libraries (ELF, Mach-O, or PE).
    pub inputs: Vec<String>,
    /// Verify well-formedness and cross-library agreement instead of dumping JSON.
    pub check: bool,
    /// Write the JSON dump to a file instead of stdout.
    pub out: Option<String>,
    /// Verify cross-library agreement, then merge the package-level keys into a JSON file.
    pub update_json: Option<String>,
}

/// What is done with the metadata once it was read.
#[derive(Clone, Copy, Debug, PartialEq, Eq, Structural)]
pub struct Steps {
    /// The libraries are checked for agreement.
    pub check: bool,
    /// The keys are merged into a JSON file.
    pub update: bool,
    /// The metadata is dumped.
    pub dump: bool,
}

/// What is done: nothing without an input. Updating checks first; a check alone dumps nothing unless
/// an output file is named.
pub open spec fn steps_of(inputs: nat, check: bool, out: bool, update: bool) -> Option<Steps> {
    if inputs == 0 {
        None
    } else {
        Some(Steps { check: check || update, update, dump: out || !(check || update) })
    }
}

/// Decide what is done.
pub fn plan(args: &Args) -> (r: Option<Steps>)
    ensures
        r == steps_of(
            args.inputs@.len(),
            args.check,
            args.out is Some,
            args.update_json is Some,
        ),
{
    if args.inputs.len() == 0 {
        return None;
    }
    let update: bool = args.update_json.is_some();
    let check: bool = args.check || update;
    Some(Steps { check, update, dump: args.out.is_some() || !check })
}

/// Whether two libraries have the same services, whatever their order and however often.
pub open spec fn same_service_sets(a: MetaFile, b: MetaFile) -> bool {
    &&& import_views(a.imports@).to_set() == import_views(b.imports@).to_set()
    &&& export_views(a.exports@).to_set() == export_views(b.exports@).to_set()
}

fn has_import(imports: &[Import], import: &Import) -> (r: bool)
    ensures
        r == import_views(imports@).contains(import@),
{
    let ghost all = import_views(imports@);
    let mut i: usize = 0;
    while i < imports.len()
        invariant
            i <= imports@.len(),
            all == import_views(imports@),
            forall|k: int| 0 <= k < i ==> all[k] != import@,
        decreases imports@.len() - i,
    {
        assert(all[i as int] == imports@[i as int]@);
        let other: &Import = &imports[i];
        if same_chars(&to_chars(&other.service_id), &to_chars(&import.service_id)) && other.major
            == import.major && other.min_minor == import.min_minor && other.optional
            == import.optional {
            assert(all[i as int] == import@);
            return true;
        }
        i = i + 1;
    }
    false
}

fn has_export(exports: &[Export], export: &Export) -> (r: bool)
    ensures
        r == export_views(exports@).contains(export@),
{
    let ghost all = export_views(exports@);
    let mut i: usize = 0;
    while i < exports.len()
        invariant
            i <= exports@.len(),
            all == export_views(exports@),
            forall|k: int| 0 <= k < i ==> all[k] != export@,
        decreases exports@.len() - i,
    {
        assert(all[i as int] == exports@[i as int]@);
        let other: &Export = &exports[i];
        if same_chars(&to_chars(&other.service_id), &to_chars(&export.service_id)) && other.major
            == export.major && other.minor == export.minor && other.deferred == export.deferred {
            assert(all[i as int] == export@);
            return true;
        }
        i = i + 1;
    }
    false
}

fn imports_within(a: &[Import], b: &[Import]) -> (r: bool)
    ensures
        r == import_views(a@).to_set().subset_of(import_views(b@).to_set()),
{
    let ghost (va, vb) = (import_views(a@), import_views(b@));
    let mut i: usize = 0;
    while i < a.len()
        invariant
            i <= a@.len(),
            va == import_views(a@),
            vb == import_views(b@),
            forall|k: int| 0 <= k < i ==> vb.contains(#[trigger] va[k]),
        decreases a@.len() - i,
    {
        assert(va[i as int] == a@[i as int]@);
        if !has_import(b, &a[i]) {
            assert(va.to_set().contains(va[i as int]));
            assert(!vb.to_set().contains(va[i as int]));
            return false;
        }
        i = i + 1;
    }
    assert(va.to_set().subset_of(vb.to_set()));
    true
}

fn exports_within(a: &[Export], b: &[Export]) -> (r: bool)
    ensures
        r == export_views(a@).to_set().subset_of(export_views(b@).to_set()),
{
    let ghost (va, vb) = (export_views(a@), export_views(b@));
    let mut i: usize = 0;
    while i < a.len()
        invariant
            i <= a@.len(),
            va == export_views(a@),
            vb == export_views(b@),
            forall|k: int| 0 <= k < i ==> vb.contains(#[trigger] va[k]),
        decreases a@.len() - i,
    {
        assert(va[i as int] == a@[i as int]@);
        if !has_export(b, &a[i]) {
            assert(va.to_set().contains(va[i as int]));
            assert(!vb.to_set().contains(va[i as int]));
            return false;
        }
        i = i + 1;
    }
    assert(va.to_set().subset_of(vb.to_set()));
    true
}

fn has_same_sets(a: &MetaFile, b: &MetaFile) -> (r: bool)
    ensures
        r == same_service_sets(*a, *b),
{
    let imports: bool = imports_within(&a.imports, &b.imports) && imports_within(
        &b.imports,
        &a.imports,
    );
    let exports: bool = exports_within(&a.exports, &b.exports) && exports_within(
        &b.exports,
        &a.exports,
    );
    proof {
        let (ai, bi) = (import_views(a.imports@).to_set(), import_views(b.imports@).to_set());
        let (ae, be) = (export_views(a.exports@).to_set(), export_views(b.exports@).to_set());
        if imports {
            assert(ai =~= bi);
        }
        if exports {
            assert(ae =~= be);
        }
    }
    imports && exports
}

/// What comes of comparing the libraries from `i` on with the first one.
pub open spec fn verified_from(files: Seq<MetaFile>, i: int) -> Result<(), AgreementError>
    decreases files.len() - i,
{
    if i < 0 || i >= files.len() {
        Ok(())
    } else if files[i].abi_version != files[0].abi_version {
        Err(AgreementError::AbiVersion(i as usize))
    } else if !same_service_sets(files[i], files[0]) {
        Err(AgreementError::Services(i as usize))
    } else {
        verified_from(files, i + 1)
    }
}

/// Verify that the libraries agree: one ABI version, and the same sets of services.
pub fn check_agreement(files: &[MetaFile]) -> (r: Result<(), AgreementError>)
    requires
        files@.len() > 0,
    ensures
        r == verified_from(files@, 0),
{
    let mut i: usize = 0;
    while i < files.len()
        invariant
            i <= files@.len(),
            verified_from(files@, i as int) == verified_from(files@, 0),
        decreases files@.len() - i,
    {
        if files[i].abi_version != files[0].abi_version {
            return Err(AgreementError::AbiVersion(i));
        }
        if !has_same_sets(&files[i], &files[0]) {
            return Err(AgreementError::Services(i));
        }
        i = i + 1;
    }
    Ok(())
}

/// Whether a service comes before another: by its id, then its versions, then its flag.
pub open spec fn service_lt(a: ServiceView, b: ServiceView) -> bool {
    let (x, y) = (encode_utf8(a.service_id), encode_utf8(b.service_id));
    if x != y {
        bytes_lt(x, y)
    } else if a.major != b.major {
        a.major < b.major
    } else if a.minor != b.minor {
        a.minor < b.minor
    } else {
        !a.flag && b.flag
    }
}

proof fn lemma_service_lt_transitive(a: ServiceView, b: ServiceView, c: ServiceView)
    requires
        service_lt(a, b),
        service_lt(b, c),
    ensures
        service_lt(a, c),
{
    let (x, y, z) = (
        encode_utf8(a.service_id),
        encode_utf8(b.service_id),
        encode_utf8(c.service_id),
    );
    lemma_bytes_lt_irreflexive(x);
    lemma_bytes_lt_irreflexive(y);
    if x != y && y != z {
        lemma_bytes_lt_transitive(x, y, z);
    }
}

proof fn lemma_service_lt_total(a: ServiceView, b: ServiceView)
    ensures
        a == b || service_lt(a, b) || service_lt(b, a),
{
    broadcast use encode_utf8_decode_utf8;

    let (x, y) = (encode_utf8(a.service_id), encode_utf8(b.service_id));
    lemma_bytes_lt_total(x, y);
    assert(decode_utf8(x) == a.service_id);
    assert(decode_utf8(y) == b.service_id);
}

fn service_less(
    a: (&String, u16, u16, bool),
    b: (&String, u16, u16, bool),
) -> (r: bool)
    ensures
        r == service_lt(
            ServiceView { service_id: a.0@, major: a.1, minor: a.2, flag: a.3 },
            ServiceView { service_id: b.0@, major: b.1, minor: b.2, flag: b.3 },
        ),
{
    let x: &[u8] = a.0.as_str().as_bytes();
    let y: &[u8] = b.0.as_str().as_bytes();
    proof {
        lemma_bytes_lt_irreflexive(x@);
        lemma_bytes_lt_total(x@, y@);
    }
    if bytes_less(x, y) {
        return true;
    }
    if bytes_less(y, x) {
        proof {
            if bytes_lt(x@, y@) {
                lemma_bytes_lt_transitive(x@, y@, x@);
            }
            lemma_bytes_lt_irreflexive(y@);
        }
        return false;
    }
    if a.1 != b.1 {
        a.1 < b.1
    } else if a.2 != b.2 {
        a.2 < b.2
    } else {
        !a.3 && b.3
    }
}

impl Ranked for Import {
    type Key = ServiceView;

    open spec fn key(&self) -> ServiceView {
        self@
    }

    open spec fn precedes(a: ServiceView, b: ServiceView) -> bool {
        service_lt(a, b)
    }

    proof fn precedes_irreflexive(a: ServiceView) {
    }

    proof fn precedes_transitive(a: ServiceView, b: ServiceView, c: ServiceView) {
        lemma_service_lt_transitive(a, b, c);
    }

    proof fn precedes_total(a: ServiceView, b: ServiceView) {
        lemma_service_lt_total(a, b);
    }

    fn less(&self, other: &Self) -> bool {
        service_less(
            (&self.service_id, self.major, self.min_minor, self.optional),
            (&other.service_id, other.major, other.min_minor, other.optional),
        )
    }
}

impl Ranked for Export {
    type Key = ServiceView;

    open spec fn key(&self) -> ServiceView {
        self@
    }

    open spec fn precedes(a: ServiceView, b: ServiceView) -> bool {
        service_lt(a, b)
    }

    proof fn precedes_irreflexive(a: ServiceView) {
    }

    proof fn precedes_transitive(a: ServiceView, b: ServiceView, c: ServiceView) {
        lemma_service_lt_transitive(a, b, c);
    }

    proof fn precedes_total(a: ServiceView, b: ServiceView) {
        lemma_service_lt_total(a, b);
    }

    fn less(&self, other: &Self) -> bool {
        service_less(
            (&self.service_id, self.major, self.minor, self.deferred),
            (&other.service_id, other.major, other.minor, other.deferred),
        )
    }
}

/// The order in which the imports are merged into a JSON file.
pub fn import_order(imports: &[Import]) -> (order: Vec<usize>)
    ensures
        is_order(imports@, order@, 0, imports@.len() as int),
{
    order_of(imports)
}

/// The order in which the exports are merged into a JSON file.
pub fn export_order(exports: &[Export]) -> (order: Vec<usize>)
    ensures
        is_order(exports@, order@, 0, exports@.len() as int),
{
    order_of(exports)
}

/// Why the metadata of libraries cannot be dumped or verified.
#[derive(Clone, Copy, Debug, PartialEq, Eq, Structural)]
pub enum ModmetaError {
    /// There is no input library.
    NoInputs,
    /// The metadata of a library cannot be parsed.
    Library(usize, MetaError),
    /// The libraries do not agree.
    Agreement(AgreementError),
}

/// Whether files hold the metadata of the first libraries.
pub open spec fn are_files(files: Seq<MetaFile>, libraries: Seq<Vec<u8>>) -> bool {
    files.len() <= libraries.len() && forall|i: int|
        0 <= i < files.len() ==> library_meta((#[trigger] libraries[i])@) == Ok::<
            MetaView,
            MetaError,
        >(meta_view(files[i]))
}

/// Parse the metadata of all libraries, up to the first that has none.
fn parse_libraries(libraries: &[Vec<u8>]) -> (r: Result<Vec<MetaFile>, ModmetaError>)
    ensures
        match r {
            Ok(files) => files@.len() == libraries@.len() && are_files(files@, libraries@),
            Err(e) => e matches ModmetaError::Library(i, f) && i < libraries@.len()
                && library_meta(libraries@[i as int]@) == Err::<MetaView, MetaError>(f) && forall|
                k: int,
            |
                0 <= k < i ==> library_meta((#[trigger] libraries@[k])@) is Ok,
        },
{
    let mut files: Vec<MetaFile> = Vec::new();
    let mut i: usize = 0;
    while i < libraries.len()
        invariant
            i <= libraries@.len(),
            files@.len() == i,
            are_files(files@, libraries@),
        decreases libraries@.len() - i,
    {
        match parse_library(&libraries[i]) {
            Ok(meta) => files.push(meta),
            Err(e) => return Err(ModmetaError::Library(i, e)),
        }
        i = i + 1;
    }
    Ok(files)
}

/// Read the metadata of the libraries and verify it where that is asked for: what it says, and what
/// is left to do with it.
pub fn run(args: &Args, libraries: &[Vec<u8>]) -> (r: Result<(Steps, Vec<MetaFile>), ModmetaError>)
    requires
        libraries@.len() == args.inputs@.len(),
    ensures
        ({
            let steps = steps_of(
                args.inputs@.len(),
                args.check,
                args.out is Some,
                args.update_json is Some,
            );
            match r {
                Ok((s, files)) => steps == Some(s) && files@.len() == libraries@.len()
                    && are_files(files@, libraries@) && (s.check ==> verified_from(files@, 0)
                    is Ok),
                Err(ModmetaError::NoInputs) => steps is None,
                Err(ModmetaError::Library(i, e)) => steps is Some && i < libraries@.len()
                    && library_meta(libraries@[i as int]@) == Err::<MetaView, MetaError>(e)
                    && forall|k: int|
                    0 <= k < i ==> library_meta((#[trigger] libraries@[k])@) is Ok,
                Err(ModmetaError::Agreement(e)) => steps matches Some(s) && s.check && exists|
                    files: Seq<MetaFile>,
                |
                    #![trigger verified_from(files, 0)]
                    files.len() == libraries@.len() && are_files(files, libraries@)
                        && verified_from(files, 0) == Err::<(), AgreementError>(e),
            }
        }),
{
    let steps: Steps = match plan(args) {
        Some(steps) => steps,
        None => return Err(ModmetaError::NoInputs),
    };
    let files: Vec<MetaFile> = parse_libraries(libraries)?;
    if steps.check {
        match check_agreement(&files) {
            Ok(_) => {},
            Err(e) => return Err(ModmetaError::Agreement(e)),
        }
    }
    Ok((steps, files))
}

} // verus!
