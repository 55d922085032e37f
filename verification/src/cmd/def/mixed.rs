//! Names that come up both as code and as data.

use vstd::prelude::*;
use crate::bytes::{byte_rows, copy_bytes};
use crate::order::{
    ascending, bytes_less, bytes_lt, lemma_bytes_lt_irreflexive, lemma_bytes_lt_total,
    lemma_bytes_lt_transitive, lemma_sorted_form_exists, sorted_form, Ranked,
};
use super::{first_named, first_parts, in_name_order, symbol_pairs, DefSymbol};

verus! {

/// The names of those of the first `n` symbols that are not what the first of their name is.
pub open spec fn mixed_names(pairs: Seq<(Seq<u8>, bool)>, n: int) -> Seq<Seq<u8>>
    decreases n,
{
    if n <= 0 {
        Seq::empty()
    } else {
        let before = mixed_names(pairs, n - 1);
        let (name, data) = pairs[n - 1];
        if first_named(pairs, name) != data {
            before.push(name)
        } else {
            before
        }
    }
}

/// Find an export by its name.
fn find_export(exports: &[DefSymbol], name: &[u8]) -> (r: usize)
    requires
        ascending::<Vec<u8>>(first_parts(symbol_pairs(exports@))),
        first_parts(symbol_pairs(exports@)).contains(name@),
    ensures
        r < exports@.len(),
        exports@[r as int].name@ == name@,
{
    let ghost names = first_parts(symbol_pairs(exports@));
    let mut lo: usize = 0;
    let mut hi: usize = exports.len();
    while lo < hi
        invariant
            lo <= hi <= exports@.len(),
            names == first_parts(symbol_pairs(exports@)),
            ascending::<Vec<u8>>(names),
            names.contains(name@),
            forall|i: int| 0 <= i < lo ==> bytes_lt(#[trigger] names[i], name@),
            forall|i: int| hi <= i < names.len() ==> bytes_lt(name@, #[trigger] names[i]),
        decreases hi - lo,
    {
        let mid: usize = lo + (hi - lo) / 2;
        assert(names[mid as int] == exports@[mid as int].name@);
        if bytes_less(&exports[mid].name, name) {
            assert forall|i: int| 0 <= i < mid + 1 implies bytes_lt(#[trigger] names[i], name@) by {
                if i < mid {
                    assert(<Vec<u8> as Ranked>::precedes(names[i], names[mid as int]));
                    lemma_bytes_lt_transitive(names[i], names[mid as int], name@);
                }
            }
            lo = mid + 1;
        } else if bytes_less(name, &exports[mid].name) {
            assert forall|i: int| mid <= i < names.len() implies bytes_lt(
                name@,
                #[trigger] names[i],
            ) by {
                if i > mid {
                    assert(<Vec<u8> as Ranked>::precedes(names[mid as int], names[i]));
                    lemma_bytes_lt_transitive(name@, names[mid as int], names[i]);
                }
            }
            hi = mid;
        } else {
            proof {
                lemma_bytes_lt_total(names[mid as int], name@);
            }
            return mid;
        }
    }
    proof {
        let i = choose|i: int| 0 <= i < names.len() && names[i] == name@;
        lemma_bytes_lt_irreflexive(name@);
        assert(bytes_lt(names[i], name@) || bytes_lt(name@, names[i]));
    }
    0
}

/// Find the names that come up both as code and as data: one for each symbol that is not what the
/// first of its name is.
pub fn find_mixed(found: &[DefSymbol], exports: &[DefSymbol]) -> (r: Vec<Vec<u8>>)
    requires
        symbol_pairs(exports@) == in_name_order(symbol_pairs(found@)),
    ensures
        byte_rows(r@) == mixed_names(symbol_pairs(found@), found@.len() as int),
{
    let ghost pairs = symbol_pairs(found@);
    let ghost sorted = sorted_form::<Vec<u8>>(first_parts(pairs));
    proof {
        lemma_sorted_form_exists::<Vec<u8>>(first_parts(pairs));
        assert(first_parts(symbol_pairs(exports@)) =~= sorted);
    }
    let mut r: Vec<Vec<u8>> = Vec::new();
    assert(byte_rows(r@) =~= Seq::empty());
    let mut i: usize = 0;
    while i < found.len()
        invariant
            i <= found@.len(),
            pairs == symbol_pairs(found@),
            symbol_pairs(exports@) == in_name_order(pairs),
            sorted == sorted_form::<Vec<u8>>(first_parts(pairs)),
            ascending::<Vec<u8>>(sorted),
            forall|name: Seq<u8>|
                #[trigger] sorted.contains(name) <==> first_parts(pairs).contains(name),
            first_parts(symbol_pairs(exports@)) == sorted,
            byte_rows(r@) == mixed_names(pairs, i as int),
        decreases found@.len() - i,
    {
        let symbol: &DefSymbol = &found[i];
        assert(pairs[i as int] == (symbol.name@, symbol.data));
        assert(first_parts(pairs)[i as int] == symbol.name@);
        assert(sorted.contains(symbol.name@));
        let at: usize = find_export(exports, &symbol.name);
        assert(symbol_pairs(exports@)[at as int] == in_name_order(pairs)[at as int]);
        assert(exports@[at as int].data == first_named(pairs, symbol.name@));
        if exports[at].data != symbol.data {
            let ghost before = byte_rows(r@);
            r.push(copy_bytes(&symbol.name));
            assert(byte_rows(r@) =~= before.push(symbol.name@));
        }
        i = i + 1;
    }
    r
}

} // verus!
