//! The text of a `.def`.

use vstd::prelude::*;
use vstd::utf8::*;
use crate::bytes::{push_bytes, same_bytes};
use crate::order::{
    ascending, bytes_less, bytes_lt, lemma_bytes_lt_total, lemma_bytes_lt_transitive, same_keys,
};
use super::forward::{forwarder_pairs, Forwarder};
use super::{first_parts, symbol_pairs, DefError, DefSymbol};

verus! {

/// What an export is.
pub enum DefExport {
    /// A symbol of the image itself.
    Local {
        data: bool,
    },
    /// A symbol of another module, `module.name`.
    Forward {
        target: Seq<u8>,
    },
}

/// The exports and the forwarders in one list, in the order of their names.
pub open spec fn combined(
    exports: Seq<(Seq<u8>, bool)>,
    forwarders: Seq<(Seq<u8>, Seq<u8>)>,
) -> Seq<(Seq<u8>, DefExport)>
    decreases exports.len() + forwarders.len(),
{
    if exports.len() == 0 && forwarders.len() == 0 {
        Seq::empty()
    } else if forwarders.len() == 0 || (exports.len() > 0 && bytes_lt(
        exports[0].0,
        forwarders[0].0,
    )) {
        seq![(exports[0].0, DefExport::Local { data: exports[0].1 })] + combined(
            exports.drop_first(),
            forwarders,
        )
    } else {
        seq![(forwarders[0].0, DefExport::Forward { target: forwarders[0].1 })] + combined(
            exports,
            forwarders.drop_first(),
        )
    }
}

/// The line of an export.
pub open spec fn def_line(name: Seq<u8>, export: DefExport) -> Seq<u8> {
    encode_utf8("    "@) + name + match export {
        DefExport::Local { data } => if data {
            encode_utf8(" DATA\n"@)
        } else {
            encode_utf8("\n"@)
        },
        DefExport::Forward { target } => encode_utf8("="@) + target + encode_utf8("\n"@),
    }
}

/// The lines of the exports.
pub open spec fn def_lines(items: Seq<(Seq<u8>, DefExport)>) -> Seq<u8>
    decreases items.len(),
{
    if items.len() == 0 {
        Seq::empty()
    } else {
        def_line(items[0].0, items[0].1) + def_lines(items.drop_first())
    }
}

/// Whether the forwarder at `i` is also a local export.
pub open spec fn clashes(
    exports: Seq<(Seq<u8>, bool)>,
    forwarders: Seq<(Seq<u8>, Seq<u8>)>,
    i: int,
) -> bool {
    first_parts(exports).contains(forwarders[i].0)
}

/// Whether `r` is the `.def` of the exports and the forwarders, or names the first forwarder that is
/// also a local export.
pub open spec fn is_def_of(
    exports: Seq<(Seq<u8>, bool)>,
    forwarders: Seq<(Seq<u8>, Seq<u8>)>,
    r: Result<Seq<u8>, DefError>,
) -> bool {
    match r {
        Ok(text) => {
            &&& forall|i: int| 0 <= i < forwarders.len() ==> !#[trigger] clashes(
                exports,
                forwarders,
                i,
            )
            &&& text == encode_utf8("EXPORTS\n"@) + def_lines(combined(exports, forwarders))
        },
        Err(e) => exists|i: int|
            0 <= i < forwarders.len() && i <= usize::MAX && e == DefError::Conflict(i as usize)
                && #[trigger] clashes(exports, forwarders, i) && forall|k: int|
                0 <= k < i ==> !#[trigger] clashes(exports, forwarders, k),
    }
}

/// Whether a name is among the exports.
fn has_export(exports: &[DefSymbol], name: &[u8]) -> (r: bool)
    ensures
        r == first_parts(symbol_pairs(exports@)).contains(name@),
{
    let ghost names = first_parts(symbol_pairs(exports@));
    let mut i: usize = 0;
    while i < exports.len()
        invariant
            i <= exports@.len(),
            names == first_parts(symbol_pairs(exports@)),
            forall|k: int| 0 <= k < i ==> names[k] != name@,
        decreases exports@.len() - i,
    {
        assert(names[i as int] == exports@[i as int].name@);
        if same_bytes(&exports[i].name, name) {
            return true;
        }
        i = i + 1;
    }
    false
}

fn push_local(out: &mut Vec<u8>, s: &DefSymbol)
    ensures
        final(out)@ == old(out)@ + def_line(s.name@, DefExport::Local { data: s.data }),
{
    push_bytes(out, "    ".as_bytes());
    push_bytes(out, &s.name);
    if s.data {
        push_bytes(out, " DATA\n".as_bytes());
    } else {
        push_bytes(out, "\n".as_bytes());
    }
    assert(out@ =~= old(out)@ + def_line(s.name@, DefExport::Local { data: s.data }));
}

fn push_forward(out: &mut Vec<u8>, f: &Forwarder)
    ensures
        final(out)@ == old(out)@ + def_line(f.name@, DefExport::Forward { target: f.target@ }),
{
    push_bytes(out, "    ".as_bytes());
    push_bytes(out, &f.name);
    push_bytes(out, "=".as_bytes());
    push_bytes(out, &f.target);
    push_bytes(out, "\n".as_bytes());
    assert(out@ =~= old(out)@ + def_line(f.name@, DefExport::Forward { target: f.target@ }));
}

/// Write the `.def` of the exports and the forwarders, both in the order of their names.
pub fn render_def(exports: &[DefSymbol], forwarders: &[Forwarder]) -> (r: Result<
    Vec<u8>,
    DefError,
>)
    ensures
        is_def_of(
            symbol_pairs(exports@),
            forwarder_pairs(forwarders@),
            match r {
                Ok(text) => Ok(text@),
                Err(e) => Err(e),
            },
        ),
{
    let ghost local = symbol_pairs(exports@);
    let ghost forward = forwarder_pairs(forwarders@);
    let mut k: usize = 0;
    while k < forwarders.len()
        invariant
            k <= forwarders@.len(),
            local == symbol_pairs(exports@),
            forward == forwarder_pairs(forwarders@),
            forall|m: int| 0 <= m < k ==> !#[trigger] clashes(local, forward, m),
        decreases forwarders@.len() - k,
    {
        assert(forward[k as int].0 == forwarders@[k as int].name@);
        if has_export(exports, &forwarders[k].name) {
            assert(clashes(local, forward, k as int));
            return Err(DefError::Conflict(k));
        }
        k = k + 1;
    }
    let mut out: Vec<u8> = Vec::new();
    push_bytes(&mut out, "EXPORTS\n".as_bytes());
    let ghost whole = def_lines(combined(local, forward));
    let ghost head = out@;
    let mut i: usize = 0;
    let mut j: usize = 0;
    assert(local.subrange(0, local.len() as int) =~= local);
    assert(forward.subrange(0, forward.len() as int) =~= forward);
    assert(head =~= encode_utf8("EXPORTS\n"@));
    while i < exports.len() || j < forwarders.len()
        invariant
            i <= exports@.len(),
            j <= forwarders@.len(),
            local == symbol_pairs(exports@),
            forward == forwarder_pairs(forwarders@),
            out@ + def_lines(
                combined(
                    local.subrange(i as int, local.len() as int),
                    forward.subrange(j as int, forward.len() as int),
                ),
            ) == head + whole,
        decreases exports@.len() - i + forwarders@.len() - j,
    {
        let ghost e = local.subrange(i as int, local.len() as int);
        let ghost f = forward.subrange(j as int, forward.len() as int);
        let ghost items = combined(e, f);
        let ghost so_far = out@;
        proof {
            if i < exports@.len() {
                assert(e[0] == (exports@[i as int].name@, exports@[i as int].data));
                assert(e.drop_first() =~= local.subrange(i + 1, local.len() as int));
            }
            if j < forwarders@.len() {
                assert(f[0] == (forwarders@[j as int].name@, forwarders@[j as int].target@));
                assert(f.drop_first() =~= forward.subrange(j + 1, forward.len() as int));
            }
        }
        let local_first: bool = if j >= forwarders.len() {
            true
        } else if i < exports.len() {
            bytes_less(&exports[i].name, &forwarders[j].name)
        } else {
            false
        };
        if local_first {
            push_local(&mut out, &exports[i]);
            proof {
                let rest = combined(e.drop_first(), f);
                assert(items.drop_first() =~= rest);
                assert(out@ + def_lines(rest) =~= so_far + def_lines(items));
            }
            i = i + 1;
        } else {
            push_forward(&mut out, &forwarders[j]);
            proof {
                let rest = combined(e, f.drop_first());
                assert(items.drop_first() =~= rest);
                assert(out@ + def_lines(rest) =~= so_far + def_lines(items));
            }
            j = j + 1;
        }
    }
    proof {
        let e = local.subrange(i as int, local.len() as int);
        let f = forward.subrange(j as int, forward.len() as int);
        assert(combined(e, f) =~= Seq::empty());
        assert(out@ + Seq::<u8>::empty() =~= out@);
    }
    Ok(out)
}

/// The names of a list of exports.
pub open spec fn item_names(items: Seq<(Seq<u8>, DefExport)>) -> Seq<Seq<u8>> {
    first_parts(items)
}

proof fn lemma_combined(exports: Seq<(Seq<u8>, bool)>, forwarders: Seq<(Seq<u8>, Seq<u8>)>)
    requires
        ascending::<Vec<u8>>(first_parts(exports)),
        ascending::<Vec<u8>>(first_parts(forwarders)),
        forall|i: int| 0 <= i < forwarders.len() ==> !#[trigger] clashes(exports, forwarders, i),
    ensures
        ascending::<Vec<u8>>(item_names(combined(exports, forwarders))),
        same_keys(
            item_names(combined(exports, forwarders)),
            first_parts(exports) + first_parts(forwarders),
        ),
    decreases exports.len() + forwarders.len(),
{
    let items = combined(exports, forwarders);
    let names = item_names(items);
    let e = first_parts(exports);
    let f = first_parts(forwarders);
    if exports.len() == 0 && forwarders.len() == 0 {
        assert(names =~= Seq::empty());
        assert(e + f =~= Seq::empty());
    } else {
        let local_first = forwarders.len() == 0 || (exports.len() > 0 && bytes_lt(e[0], f[0]));
        let e_rest = if local_first {
            exports.drop_first()
        } else {
            exports
        };
        let f_rest = if local_first {
            forwarders
        } else {
            forwarders.drop_first()
        };
        assert forall|i: int| 0 <= i < f_rest.len() implies !#[trigger] clashes(
            e_rest,
            f_rest,
            i,
        ) by {
            let j = if local_first {
                i
            } else {
                i + 1
            };
            assert(!clashes(exports, forwarders, j));
            if first_parts(e_rest).contains(f_rest[i].0) {
                let x = choose|x: int|
                    0 <= x < e_rest.len() && first_parts(e_rest)[x] == f_rest[i].0;
                let y = if local_first {
                    x + 1
                } else {
                    x
                };
                assert(e[y] == forwarders[j].0);
            }
        }
        if local_first {
            assert(first_parts(e_rest) =~= e.drop_first());
        } else {
            assert(first_parts(f_rest) =~= f.drop_first());
        }
        lemma_combined(e_rest, f_rest);
        let rest = item_names(combined(e_rest, f_rest));
        let head = if local_first {
            e[0]
        } else {
            f[0]
        };
        assert(names =~= seq![head] + rest);
        let others = first_parts(e_rest) + first_parts(f_rest);
        assert forall|k: Seq<u8>| #[trigger] others.contains(k) implies bytes_lt(head, k) by {
            let x = choose|x: int| 0 <= x < others.len() && others[x] == k;
            if local_first {
                if x < e_rest.len() {
                    assert(e[x + 1] == k);
                } else {
                    let y = x - e_rest.len();
                    assert(f[y] == k);
                    if y > 0 {
                        lemma_bytes_lt_transitive(head, f[0], k);
                    }
                }
            } else {
                if x < e_rest.len() {
                    assert(e[x] == k);
                    lemma_bytes_lt_total(head, e[0]);
                    assert(!clashes(exports, forwarders, 0));
                    assert(e.contains(e[0]));
                    if x > 0 {
                        lemma_bytes_lt_transitive(head, e[0], k);
                    }
                } else {
                    assert(f[x - e_rest.len() + 1] == k);
                }
            }
        }
        assert forall|i: int, j: int| 0 <= i < j < names.len() implies bytes_lt(
            #[trigger] names[i],
            #[trigger] names[j],
        ) by {
            assert(names[j] == rest[j - 1]);
            if i > 0 {
                assert(names[i] == rest[i - 1]);
                assert(<Vec<u8> as crate::order::Ranked>::precedes(rest[i - 1], rest[j - 1]));
            } else {
                assert(rest.contains(rest[j - 1]));
                assert(others.contains(rest[j - 1]));
            }
        }
        assert forall|k: Seq<u8>| #[trigger] names.contains(k) <==> (e + f).contains(k) by {
            if names.contains(k) {
                let x = choose|x: int| 0 <= x < names.len() && names[x] == k;
                if x == 0 {
                    if local_first {
                        assert((e + f)[0] == k);
                    } else {
                        assert((e + f)[e.len() as int] == k);
                    }
                } else {
                    assert(rest[x - 1] == k);
                    assert(rest.contains(k));
                    assert(others.contains(k));
                    let y = choose|y: int| 0 <= y < others.len() && others[y] == k;
                    if local_first {
                        assert((e + f)[y + 1] == k);
                    } else if y < e.len() {
                        assert((e + f)[y] == k);
                    } else {
                        assert((e + f)[y + 1] == k);
                    }
                }
            }
            if (e + f).contains(k) {
                let y = choose|y: int| 0 <= y < (e + f).len() && (e + f)[y] == k;
                if local_first {
                    if y == 0 {
                        assert(names[0] == k);
                    } else {
                        assert(others[y - 1] == k);
                    }
                } else if y < e.len() {
                    assert(others[y] == k);
                } else if y == e.len() {
                    assert(names[0] == k);
                } else {
                    assert(others[y - 1] == k);
                }
                if k != names[0] {
                    assert(others.contains(k));
                    assert(rest.contains(k));
                    let x = choose|x: int| 0 <= x < rest.len() && rest[x] == k;
                    assert(names[x + 1] == k);
                }
            }
        }
    }
}

/// The lines of a `.def` come in the order of their names, one for each local export and each
/// forwarder and no others.
pub proof fn law_def_lists_every_name_in_order(
    exports: Seq<(Seq<u8>, bool)>,
    forwarders: Seq<(Seq<u8>, Seq<u8>)>,
    text: Seq<u8>,
)
    requires
        ascending::<Vec<u8>>(first_parts(exports)),
        ascending::<Vec<u8>>(first_parts(forwarders)),
        is_def_of(exports, forwarders, Ok(text)),
    ensures
        exists|items: Seq<(Seq<u8>, DefExport)>|
            {
                &&& text == encode_utf8("EXPORTS\n"@) + #[trigger] def_lines(items)
                &&& ascending::<Vec<u8>>(item_names(items))
                &&& same_keys(item_names(items), first_parts(exports) + first_parts(forwarders))
            },
{
    lemma_combined(exports, forwarders);
    let items = combined(exports, forwarders);
    assert(text == encode_utf8("EXPORTS\n"@) + def_lines(items));
}

} // verus!
