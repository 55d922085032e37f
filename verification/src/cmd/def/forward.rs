//! Forwarders to the exports of other modules.

use vstd::prelude::*;
use vstd::utf8::*;
use crate::bytes::{
    begins_any, byte_rows, bytes_begin_any, copy_bytes, push_bytes, same_bytes,
};
use crate::order::{
    bytes_less, bytes_lt, distinct_order, is_first, keys, keys_at, lemma_bytes_lt_irreflexive,
    lemma_bytes_lt_total, lemma_bytes_lt_transitive, sorted_form, Ranked,
};
use crate::text::utf8_string;
use crate::util::objfile::{file_exports, file_kind, read_exports, read_kind, ImageKind};
use super::{
    first_parts, in_name_order, is_skip_symbol, is_skipped, lemma_same_order, DefError,
};

verus! {

/// A symbol that another module provides.
pub struct Forwarder {
    pub name: Vec<u8>,
    /// `module.name`.
    pub target: Vec<u8>,
}

/// A DLL whose exports are forwarded.
pub struct ForwardDll {
    /// The file's name without its extension, where that is UTF-8.
    pub module: Option<String>,
    pub data: Vec<u8>,
}

/// The forwarders as plain values.
pub open spec fn forwarder_pairs(forwarders: Seq<Forwarder>) -> Seq<(Seq<u8>, Seq<u8>)> {
    Seq::new(forwarders.len(), |i: int| (forwarders[i].name@, forwarders[i].target@))
}

/// Whether an export is forwarded.
pub open spec fn is_forwarded(
    name: Seq<u8>,
    prefixes: Seq<String>,
    exclude: Seq<String>,
) -> bool {
    name.len() > 0 && (prefixes.len() == 0 || begins_any(name, prefixes)) && !is_skipped(name)
        && !begins_any(name, exclude)
}

/// The target of a forwarder.
pub open spec fn target_of(module: Seq<u8>, name: Seq<u8>) -> Seq<u8> {
    module + seq![0x2eu8] + name
}

/// The forwarders once the first `n` exports of a module were added to those before. The module is
/// the `at`-th.
pub open spec fn added(
    before: Seq<(Seq<u8>, Seq<u8>)>,
    names: Seq<Seq<u8>>,
    module: Seq<u8>,
    at: usize,
    prefixes: Seq<String>,
    exclude: Seq<String>,
    n: int,
) -> Result<Seq<(Seq<u8>, Seq<u8>)>, DefError>
    decreases n,
{
    if n <= 0 {
        Ok(before)
    } else {
        match added(before, names, module, at, prefixes, exclude, n - 1) {
            Err(e) => Err(e),
            Ok(so_far) => {
                let name = names[n - 1];
                if !valid_utf8(name) {
                    Err(DefError::ForwardNotUtf8(at))
                } else if !is_forwarded(name, prefixes, exclude) {
                    Ok(so_far)
                } else {
                    match first_parts(so_far).index_of_first(name) {
                        None => Ok(so_far.push((name, target_of(module, name)))),
                        Some(i) => if so_far[i].1 == target_of(module, name) {
                            Ok(so_far)
                        } else {
                            Err(DefError::ForwardConflict(at))
                        },
                    }
                }
            },
        }
    }
}

proof fn lemma_added_error(
    before: Seq<(Seq<u8>, Seq<u8>)>,
    names: Seq<Seq<u8>>,
    module: Seq<u8>,
    at: usize,
    prefixes: Seq<String>,
    exclude: Seq<String>,
    n: int,
    m: int,
)
    requires
        0 <= n <= m,
        added(before, names, module, at, prefixes, exclude, n) is Err,
    ensures
        added(before, names, module, at, prefixes, exclude, m) == added(
            before,
            names,
            module,
            at,
            prefixes,
            exclude,
            n,
        ),
    decreases m,
{
    if n < m {
        lemma_added_error(before, names, module, at, prefixes, exclude, n, m - 1);
    }
}

/// Find the forwarder with a name.
fn find_forwarder(forwarders: &Vec<Forwarder>, name: &[u8]) -> (r: Option<usize>)
    ensures
        match r {
            Some(i) => i < forwarders@.len() && first_parts(
                forwarder_pairs(forwarders@),
            ).index_of_first(name@) == Some(i as int),
            None => first_parts(forwarder_pairs(forwarders@)).index_of_first(name@) is None,
        },
{
    let ghost names = first_parts(forwarder_pairs(forwarders@));
    proof {
        names.index_of_first_ensures(name@);
    }
    let mut i: usize = 0;
    while i < forwarders.len()
        invariant
            i <= forwarders@.len(),
            names == first_parts(forwarder_pairs(forwarders@)),
            forall|k: int| 0 <= k < i ==> names[k] != name@,
        decreases forwarders@.len() - i,
    {
        assert(names[i as int] == forwarders@[i as int].name@);
        if same_bytes(&forwarders[i].name, name) {
            proof {
                assert(names.contains(name@));
                names.index_of_first_ensures(name@);
            }
            return Some(i);
        }
        i = i + 1;
    }
    None
}

/// Whether the bytes are UTF-8.
fn is_utf8(bytes: &[u8]) -> (r: bool)
    ensures
        r == valid_utf8(bytes@),
{
    utf8_string(copy_bytes(bytes)).is_some()
}

/// Add the exports of a module to the forwarders.
pub fn add_forwarders(
    forwarders: &mut Vec<Forwarder>,
    names: &[Vec<u8>],
    module: &[u8],
    at: usize,
    prefixes: &[String],
    exclude: &[String],
) -> (r: Result<(), DefError>)
    ensures
        ({
            let wanted = added(
                forwarder_pairs(old(forwarders)@),
                byte_rows(names@),
                module@,
                at,
                prefixes@,
                exclude@,
                names@.len() as int,
            );
            match r {
                Ok(_) => wanted == Ok::<Seq<(Seq<u8>, Seq<u8>)>, DefError>(
                    forwarder_pairs(final(forwarders)@),
                ),
                Err(e) => wanted == Err::<Seq<(Seq<u8>, Seq<u8>)>, DefError>(e),
            }
        }),
{
    let ghost before = forwarder_pairs(forwarders@);
    let ghost all = byte_rows(names@);
    let mut i: usize = 0;
    while i < names.len()
        invariant
            i <= names@.len(),
            all == byte_rows(names@),
            before == forwarder_pairs(old(forwarders)@),
            added(before, all, module@, at, prefixes@, exclude@, i as int) == Ok::<
                Seq<(Seq<u8>, Seq<u8>)>,
                DefError,
            >(forwarder_pairs(forwarders@)),
        decreases names@.len() - i,
    {
        let name: &Vec<u8> = &names[i];
        assert(all[i as int] == name@);
        let ghost so_far = forwarder_pairs(forwarders@);
        if !is_utf8(name) {
            proof {
                lemma_added_error(
                    before,
                    all,
                    module@,
                    at,
                    prefixes@,
                    exclude@,
                    i + 1,
                    names@.len() as int,
                );
            }
            return Err(DefError::ForwardNotUtf8(at));
        }
        if name.len() > 0 && (prefixes.len() == 0 || bytes_begin_any(name, prefixes))
            && !is_skip_symbol(name) && !bytes_begin_any(name, exclude) {
            let mut target: Vec<u8> = copy_bytes(module);
            target.push(0x2e);
            push_bytes(&mut target, name);
            assert(target@ =~= target_of(module@, name@));
            match find_forwarder(forwarders, name) {
                Some(place) => {
                    assert(so_far[place as int].1 == forwarders@[place as int].target@);
                    if !same_bytes(&forwarders[place].target, &target) {
                        proof {
                            lemma_added_error(
                                before,
                                all,
                                module@,
                                at,
                                prefixes@,
                                exclude@,
                                i + 1,
                                names@.len() as int,
                            );
                        }
                        return Err(DefError::ForwardConflict(at));
                    }
                },
                None => {
                    forwarders.push(Forwarder { name: copy_bytes(name), target });
                    assert(forwarder_pairs(forwarders@) =~= so_far.push((name@, target@)));
                },
            }
        }
        i = i + 1;
    }
    Ok(())
}

/// The text of an optional string.
pub open spec fn module_bytes(module: Option<String>) -> Option<Seq<u8>> {
    match module {
        Some(name) => if encode_utf8(name@).len() == 0 {
            None
        } else {
            Some(encode_utf8(name@))
        },
        None => None,
    }
}

/// The forwarders once the exports of the first `n` DLLs were added.
pub open spec fn forwarders_of(
    dlls: Seq<ForwardDll>,
    prefixes: Seq<String>,
    exclude: Seq<String>,
    n: int,
) -> Result<Seq<(Seq<u8>, Seq<u8>)>, DefError>
    decreases n,
{
    if n <= 0 {
        Ok(Seq::empty())
    } else {
        match forwarders_of(dlls, prefixes, exclude, n - 1) {
            Err(e) => Err(e),
            Ok(before) => {
                let at = (n - 1) as usize;
                let data = dlls[n - 1].data@;
                match file_kind(data) {
                    None => Err(DefError::ForwardUnknown(at)),
                    Some(ImageKind::Pe32) | Some(ImageKind::Pe64) => match (
                        file_exports(data),
                        module_bytes(dlls[n - 1].module),
                    ) {
                        (None, _) => Err(DefError::ForwardUnparsed(at)),
                        (_, None) => Err(DefError::ForwardNoModule(at)),
                        (Some(None), _) => Err(DefError::ForwardExports(at)),
                        (Some(Some(names)), Some(module)) => added(
                            before,
                            names,
                            module,
                            at,
                            prefixes,
                            exclude,
                            names.len() as int,
                        ),
                    },
                    Some(_) => Err(DefError::ForwardNotPe(at)),
                }
            },
        }
    }
}

proof fn lemma_forwarders_error(
    dlls: Seq<ForwardDll>,
    prefixes: Seq<String>,
    exclude: Seq<String>,
    n: int,
    m: int,
)
    requires
        0 <= n <= m,
        forwarders_of(dlls, prefixes, exclude, n) is Err,
    ensures
        forwarders_of(dlls, prefixes, exclude, m) == forwarders_of(dlls, prefixes, exclude, n),
    decreases m,
{
    if n < m {
        lemma_forwarders_error(dlls, prefixes, exclude, n, m - 1);
    }
}

/// Add the exports of one DLL.
fn scan_forward_dll(
    forwarders: &mut Vec<Forwarder>,
    dlls: &[ForwardDll],
    at: usize,
    prefixes: &[String],
    exclude: &[String],
) -> (r: Result<(), DefError>)
    requires
        at < dlls@.len(),
        forwarders_of(dlls@, prefixes@, exclude@, at as int) == Ok::<
            Seq<(Seq<u8>, Seq<u8>)>,
            DefError,
        >(forwarder_pairs(old(forwarders)@)),
    ensures
        match r {
            Ok(_) => forwarders_of(dlls@, prefixes@, exclude@, at + 1) == Ok::<
                Seq<(Seq<u8>, Seq<u8>)>,
                DefError,
            >(forwarder_pairs(final(forwarders)@)),
            Err(e) => forwarders_of(dlls@, prefixes@, exclude@, at + 1) == Err::<
                Seq<(Seq<u8>, Seq<u8>)>,
                DefError,
            >(e),
        },
{
    let dll: &ForwardDll = &dlls[at];
    match read_kind(&dll.data) {
        None => return Err(DefError::ForwardUnknown(at)),
        Some(ImageKind::Pe32) | Some(ImageKind::Pe64) => {},
        Some(_) => return Err(DefError::ForwardNotPe(at)),
    }
    let exports: Option<Vec<Vec<u8>>> = match read_exports(&dll.data) {
        Some(exports) => exports,
        None => return Err(DefError::ForwardUnparsed(at)),
    };
    let module: &[u8] = match &dll.module {
        Some(module) => module.as_str().as_bytes(),
        None => return Err(DefError::ForwardNoModule(at)),
    };
    if module.len() == 0 {
        return Err(DefError::ForwardNoModule(at));
    }
    match exports {
        Some(names) => add_forwarders(forwarders, &names, module, at, prefixes, exclude),
        None => Err(DefError::ForwardExports(at)),
    }
}

/// The forwarders to the exports of the DLLs.
pub fn scan_forwarders(dlls: &[ForwardDll], prefixes: &[String], exclude: &[String]) -> (r: Result<
    Vec<Forwarder>,
    DefError,
>)
    ensures
        match r {
            Ok(found) => forwarders_of(dlls@, prefixes@, exclude@, dlls@.len() as int) == Ok::<
                Seq<(Seq<u8>, Seq<u8>)>,
                DefError,
            >(forwarder_pairs(found@)),
            Err(e) => forwarders_of(dlls@, prefixes@, exclude@, dlls@.len() as int) == Err::<
                Seq<(Seq<u8>, Seq<u8>)>,
                DefError,
            >(e),
        },
{
    let mut forwarders: Vec<Forwarder> = Vec::new();
    let mut i: usize = 0;
    assert(forwarder_pairs(forwarders@) =~= Seq::empty());
    while i < dlls.len()
        invariant
            i <= dlls@.len(),
            forwarders_of(dlls@, prefixes@, exclude@, i as int) == Ok::<
                Seq<(Seq<u8>, Seq<u8>)>,
                DefError,
            >(forwarder_pairs(forwarders@)),
        decreases dlls@.len() - i,
    {
        match scan_forward_dll(&mut forwarders, dlls, i, prefixes, exclude) {
            Ok(_) => {},
            Err(e) => {
                proof {
                    lemma_forwarders_error(
                        dlls@,
                        prefixes@,
                        exclude@,
                        i + 1,
                        dlls@.len() as int,
                    );
                }
                return Err(e);
            },
        }
        i = i + 1;
    }
    Ok(forwarders)
}

impl Ranked for Forwarder {
    type Key = Seq<u8>;

    open spec fn key(&self) -> Seq<u8> {
        self.name@
    }

    open spec fn precedes(a: Seq<u8>, b: Seq<u8>) -> bool {
        bytes_lt(a, b)
    }

    proof fn precedes_irreflexive(a: Seq<u8>) {
        lemma_bytes_lt_irreflexive(a);
    }

    proof fn precedes_transitive(a: Seq<u8>, b: Seq<u8>, c: Seq<u8>) {
        lemma_bytes_lt_transitive(a, b, c);
    }

    proof fn precedes_total(a: Seq<u8>, b: Seq<u8>) {
        lemma_bytes_lt_total(a, b);
    }

    fn less(&self, other: &Self) -> bool {
        bytes_less(&self.name, &other.name)
    }
}

/// Put the forwarders in the order of their names.
pub fn sort_forwarders(found: &[Forwarder]) -> (r: Vec<Forwarder>)
    ensures
        forwarder_pairs(r@) == in_name_order(forwarder_pairs(found@)),
{
    let ghost pairs = forwarder_pairs(found@);
    let places: Vec<usize> = distinct_order(found);
    let mut r: Vec<Forwarder> = Vec::new();
    let mut i: usize = 0;
    while i < places.len()
        invariant
            i <= places@.len(),
            r@.len() == i,
            forall|k: int| 0 <= k < places@.len() ==> (#[trigger] places@[k]) < found@.len(),
            forall|k: int|
                0 <= k < i ==> (#[trigger] r@[k]).name@ == found@[places@[k] as int].name@
                    && r@[k].target@ == found@[places@[k] as int].target@,
        decreases places@.len() - i,
    {
        let f: &Forwarder = &found[places[i]];
        r.push(Forwarder { name: copy_bytes(&f.name), target: copy_bytes(&f.target) });
        i = i + 1;
    }
    proof {
        let names = first_parts(pairs);
        assert(keys(found@) =~= names);
        lemma_same_order::<Forwarder, Vec<u8>>(names);
        let sorted = sorted_form::<Vec<u8>>(names);
        assert(keys_at(found@, places@) == sorted);
        assert forall|k: int| 0 <= k < r@.len() implies forwarder_pairs(r@)[k] == in_name_order(
            pairs,
        )[k] by {
            let at = places@[k] as int;
            assert(keys_at(found@, places@)[k] == found@[at].name@);
            assert(names[at] == sorted[k]);
            assert(is_first(found@, at));
            assert forall|j: int| 0 <= j < at implies names[j] != sorted[k] by {
                assert(found@[j].key() != found@[at].key());
            }
            names.index_of_first_ensures(sorted[k]);
            assert(names.contains(sorted[k]));
        }
        assert(forwarder_pairs(r@) =~= in_name_order(pairs));
    }
    r
}

} // verus!
