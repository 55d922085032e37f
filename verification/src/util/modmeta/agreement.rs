//! Agreement of the metadata of a package's libraries.

use vstd::prelude::*;
use crate::text::{same_chars, to_chars};
use super::record::{Export, Import, ServiceView};
use super::section::{export_views, import_views, MetaFile};

verus! {

/// Why the libraries of a package do not agree. The number is the place of the library that differs
/// from the first one.
#[derive(Clone, Copy, Debug, PartialEq, Eq, Structural)]
pub enum AgreementError {
    /// There is no library.
    NoFiles,
    /// The ABI versions differ.
    AbiVersion(usize),
    /// The services differ.
    Services(usize),
}

/// Whether two libraries have the same services, whatever their order.
pub open spec fn same_services(a: MetaFile, b: MetaFile) -> bool {
    &&& import_views(a.imports@).to_multiset() == import_views(b.imports@).to_multiset()
    &&& export_views(a.exports@).to_multiset() == export_views(b.exports@).to_multiset()
}

/// Whether two libraries agree.
pub open spec fn agree(a: MetaFile, b: MetaFile) -> bool {
    a.abi_version == b.abi_version && same_services(a, b)
}

/// How often a service comes up.
pub open spec fn times(services: Seq<ServiceView>, service: ServiceView, n: int) -> nat
    decreases n,
{
    if n <= 0 {
        0
    } else {
        times(services, service, n - 1) + if services[n - 1] == service {
            1nat
        } else {
            0nat
        }
    }
}

proof fn lemma_times(services: Seq<ServiceView>, service: ServiceView)
    ensures
        times(services, service, services.len() as int) == services.to_multiset().count(service),
    decreases services.len(),
{
    broadcast use vstd::seq_lib::group_to_multiset_ensures;

    if services.len() == 0 {
        assert(services.to_multiset().count(service) == 0) by {
            if services.to_multiset().count(service) > 0 {
                assert(services.contains(service));
            }
        }
    } else {
        let before = services.drop_last();
        lemma_times(before, service);
        lemma_times_prefix(services, before, service, before.len() as int);
        assert(services =~= before.push(services.last()));
        assert(services.to_multiset() =~= before.to_multiset().insert(services.last()));
    }
}

proof fn lemma_times_prefix(
    a: Seq<ServiceView>,
    b: Seq<ServiceView>,
    service: ServiceView,
    n: int,
)
    requires
        0 <= n <= a.len(),
        n <= b.len(),
        forall|i: int| 0 <= i < n ==> a[i] == b[i],
    ensures
        times(a, service, n) == times(b, service, n),
    decreases n,
{
    if n > 0 {
        lemma_times_prefix(a, b, service, n - 1);
    }
}

proof fn lemma_times_absent(services: Seq<ServiceView>, service: ServiceView, n: int)
    requires
        0 <= n <= services.len(),
        forall|i: int| 0 <= i < n ==> services[i] != service,
    ensures
        times(services, service, n) == 0,
    decreases n,
{
    if n > 0 {
        lemma_times_absent(services, service, n - 1);
    }
}

/// Lists in which every service of either comes up equally often hold the same services.
proof fn lemma_same_multiset(a: Seq<ServiceView>, b: Seq<ServiceView>)
    requires
        forall|i: int|
            0 <= i < a.len() ==> times(a, #[trigger] a[i], a.len() as int) == times(
                b,
                a[i],
                b.len() as int,
            ),
        forall|i: int|
            0 <= i < b.len() ==> times(a, #[trigger] b[i], a.len() as int) == times(
                b,
                b[i],
                b.len() as int,
            ),
    ensures
        a.to_multiset() == b.to_multiset(),
{
    assert forall|s: ServiceView| #[trigger] a.to_multiset().count(s) == b.to_multiset().count(
        s,
    ) by {
        lemma_times(a, s);
        lemma_times(b, s);
        if a.contains(s) {
            let i = choose|i: int| 0 <= i < a.len() && a[i] == s;
            assert(a[i] == s);
        } else if b.contains(s) {
            let i = choose|i: int| 0 <= i < b.len() && b[i] == s;
            assert(b[i] == s);
        } else {
            lemma_times_absent(a, s, a.len() as int);
            lemma_times_absent(b, s, b.len() as int);
        }
    }
    assert(a.to_multiset() =~= b.to_multiset());
}

proof fn lemma_same_times(a: Seq<ServiceView>, b: Seq<ServiceView>, s: ServiceView)
    requires
        a.to_multiset() == b.to_multiset(),
    ensures
        times(a, s, a.len() as int) == times(b, s, b.len() as int),
{
    lemma_times(a, s);
    lemma_times(b, s);
}

fn same_import(a: &Import, b: &Import) -> (r: bool)
    ensures
        r == (a@ == b@),
{
    same_chars(&to_chars(&a.service_id), &to_chars(&b.service_id)) && a.major == b.major
        && a.min_minor == b.min_minor && a.optional == b.optional
}

fn same_export(a: &Export, b: &Export) -> (r: bool)
    ensures
        r == (a@ == b@),
{
    same_chars(&to_chars(&a.service_id), &to_chars(&b.service_id)) && a.major == b.major && a.minor
        == b.minor && a.deferred == b.deferred
}

fn count_import(imports: &[Import], import: &Import) -> (r: usize)
    ensures
        r == times(import_views(imports@), import@, imports@.len() as int),
{
    let ghost all = import_views(imports@);
    let mut r: usize = 0;
    let mut i: usize = 0;
    while i < imports.len()
        invariant
            i <= imports@.len(),
            r <= i,
            all == import_views(imports@),
            r == times(all, import@, i as int),
        decreases imports@.len() - i,
    {
        assert(all[i as int] == imports@[i as int]@);
        if same_import(&imports[i], import) {
            r = r + 1;
        }
        i = i + 1;
    }
    r
}

fn count_export(exports: &[Export], export: &Export) -> (r: usize)
    ensures
        r == times(export_views(exports@), export@, exports@.len() as int),
{
    let ghost all = export_views(exports@);
    let mut r: usize = 0;
    let mut i: usize = 0;
    while i < exports.len()
        invariant
            i <= exports@.len(),
            r <= i,
            all == export_views(exports@),
            r == times(all, export@, i as int),
        decreases exports@.len() - i,
    {
        assert(all[i as int] == exports@[i as int]@);
        if same_export(&exports[i], export) {
            r = r + 1;
        }
        i = i + 1;
    }
    r
}

/// Whether every import of the first list comes up equally often in both.
fn imports_match(of: &[Import], a: &[Import], b: &[Import]) -> (r: bool)
    ensures
        r == (forall|i: int|
            0 <= i < of@.len() ==> times(
                import_views(a@),
                #[trigger] import_views(of@)[i],
                a@.len() as int,
            ) == times(import_views(b@), import_views(of@)[i], b@.len() as int)),
{
    let ghost all = import_views(of@);
    let mut i: usize = 0;
    while i < of.len()
        invariant
            i <= of@.len(),
            all == import_views(of@),
            forall|k: int|
                0 <= k < i ==> times(import_views(a@), #[trigger] all[k], a@.len() as int) == times(
                    import_views(b@),
                    all[k],
                    b@.len() as int,
                ),
        decreases of@.len() - i,
    {
        assert(all[i as int] == of@[i as int]@);
        if count_import(a, &of[i]) != count_import(b, &of[i]) {
            return false;
        }
        i = i + 1;
    }
    true
}

/// Whether every export of the first list comes up equally often in both.
fn exports_match(of: &[Export], a: &[Export], b: &[Export]) -> (r: bool)
    ensures
        r == (forall|i: int|
            0 <= i < of@.len() ==> times(
                export_views(a@),
                #[trigger] export_views(of@)[i],
                a@.len() as int,
            ) == times(export_views(b@), export_views(of@)[i], b@.len() as int)),
{
    let ghost all = export_views(of@);
    let mut i: usize = 0;
    while i < of.len()
        invariant
            i <= of@.len(),
            all == export_views(of@),
            forall|k: int|
                0 <= k < i ==> times(export_views(a@), #[trigger] all[k], a@.len() as int) == times(
                    export_views(b@),
                    all[k],
                    b@.len() as int,
                ),
        decreases of@.len() - i,
    {
        assert(all[i as int] == of@[i as int]@);
        if count_export(a, &of[i]) != count_export(b, &of[i]) {
            return false;
        }
        i = i + 1;
    }
    true
}

/// Whether two libraries have the same services.
pub fn has_same_services(a: &MetaFile, b: &MetaFile) -> (r: bool)
    ensures
        r == same_services(*a, *b),
{
    let imports: bool = imports_match(&a.imports, &a.imports, &b.imports) && imports_match(
        &b.imports,
        &a.imports,
        &b.imports,
    );
    let exports: bool = exports_match(&a.exports, &a.exports, &b.exports) && exports_match(
        &b.exports,
        &a.exports,
        &b.exports,
    );
    proof {
        let (ai, bi) = (import_views(a.imports@), import_views(b.imports@));
        let (ae, be) = (export_views(a.exports@), export_views(b.exports@));
        assert(ai.len() == a.imports@.len() && bi.len() == b.imports@.len());
        assert(ae.len() == a.exports@.len() && be.len() == b.exports@.len());
        if imports {
            lemma_same_multiset(ai, bi);
        }
        if exports {
            lemma_same_multiset(ae, be);
        }
        if ai.to_multiset() == bi.to_multiset() {
            assert forall|s: ServiceView|
                times(ai, s, ai.len() as int) == times(bi, s, bi.len() as int) by {
                lemma_same_times(ai, bi, s);
            }
        }
        if ae.to_multiset() == be.to_multiset() {
            assert forall|s: ServiceView|
                times(ae, s, ae.len() as int) == times(be, s, be.len() as int) by {
                lemma_same_times(ae, be, s);
            }
        }
    }
    imports && exports
}

/// What comes of comparing the libraries from `i` on with the first one.
pub open spec fn agreement_from(files: Seq<MetaFile>, i: int) -> Result<(), AgreementError>
    decreases files.len() - i,
{
    if i < 0 || i >= files.len() {
        Ok(())
    } else if files[i].abi_version != files[0].abi_version {
        Err(AgreementError::AbiVersion(i as usize))
    } else if !same_services(files[0], files[i]) {
        Err(AgreementError::Services(i as usize))
    } else {
        agreement_from(files, i + 1)
    }
}

/// What comes of comparing the libraries of a package.
pub open spec fn agreement(files: Seq<MetaFile>) -> Result<(), AgreementError> {
    if files.len() == 0 {
        Err(AgreementError::NoFiles)
    } else {
        agreement_from(files, 1)
    }
}

/// Verify the ABI and service-set agreement required across a package's entry libraries.
pub fn check_agreement(files: &[MetaFile]) -> (r: Result<(), AgreementError>)
    ensures
        r == agreement(files@),
{
    if files.len() == 0 {
        return Err(AgreementError::NoFiles);
    }
    let mut i: usize = 1;
    while i < files.len()
        invariant
            1 <= i <= files@.len(),
            agreement_from(files@, i as int) == agreement_from(files@, 1),
        decreases files@.len() - i,
    {
        if files[i].abi_version != files[0].abi_version {
            return Err(AgreementError::AbiVersion(i));
        }
        if !has_same_services(&files[0], &files[i]) {
            return Err(AgreementError::Services(i));
        }
        i = i + 1;
    }
    Ok(())
}

proof fn lemma_agreement_from(files: Seq<MetaFile>, i: int)
    requires
        0 <= i <= files.len(),
    ensures
        agreement_from(files, i) is Ok <==> forall|k: int|
            i <= k < files.len() ==> agree(files[0], #[trigger] files[k]),
    decreases files.len() - i,
{
    if i < files.len() {
        lemma_agreement_from(files, i + 1);
        assert(files[i] == files[i]);
        if agreement_from(files, i) is Ok {
            assert forall|k: int| i <= k < files.len() implies agree(
                files[0],
                #[trigger] files[k],
            ) by {
            }
        }
    }
}

/// Libraries pass exactly where every two of them have the same ABI version and the same services:
/// which library comes first, and in what order each lists its services, makes no difference.
pub proof fn law_agreement_is_between_all(files: Seq<MetaFile>)
    requires
        files.len() > 0,
    ensures
        agreement(files) is Ok <==> forall|i: int, j: int|
            0 <= i < files.len() && 0 <= j < files.len() ==> agree(
                #[trigger] files[i],
                #[trigger] files[j],
            ),
{
    lemma_agreement_from(files, 1);
    if agreement(files) is Ok {
        assert forall|i: int, j: int| 0 <= i < files.len() && 0 <= j < files.len() implies agree(
            #[trigger] files[i],
            #[trigger] files[j],
        ) by {
            assert(agree(files[0], files[i]));
            assert(agree(files[0], files[j]));
        }
    } else {
        assert(!(forall|k: int| 1 <= k < files.len() ==> agree(files[0], #[trigger] files[k])));
        let k = choose|k: int| 1 <= k < files.len() && !agree(files[0], #[trigger] files[k]);
        assert(!agree(files[0], files[k]));
    }
}

} // verus!
