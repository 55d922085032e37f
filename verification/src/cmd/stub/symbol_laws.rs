//! Which symbols a stub is made for.

use vstd::prelude::*;
use vstd::utf8::*;
use crate::order::{ascending, lemma_sorted_form_exists};
use crate::text::{text_lines, trimmed};
use crate::util::objfile::SymbolView;
use super::symbols::{defined_names, exported_names, symbol_list_of, symbols_in};

verus! {

/// Whether a line of a symbol list is a name: what it holds without the blanks around it, where that is
/// no comment.
pub open spec fn is_name_line(line: Seq<char>, name: Seq<u8>) -> bool {
    let text = trimmed(line);
    text.len() > 0 && text[0] != '#' && encode_utf8(text) == name
}

proof fn lemma_lines(lines: Seq<Seq<char>>, n: int, name: Seq<u8>)
    requires
        0 <= n <= lines.len(),
    ensures
        symbols_in(lines, n).contains(name) <==> exists|i: int|
            0 <= i < n && is_name_line(#[trigger] lines[i], name),
    decreases n,
{
    if n > 0 {
        let before = symbols_in(lines, n - 1);
        let all = symbols_in(lines, n);
        lemma_lines(lines, n - 1, name);
        if all.contains(name) {
            let k = choose|k: int| 0 <= k < all.len() && all[k] == name;
            if k < before.len() {
                assert(before[k] == name);
            } else {
                assert(is_name_line(lines[n - 1], name));
            }
        }
        if before.contains(name) {
            let k = choose|k: int| 0 <= k < before.len() && before[k] == name;
            assert(all[k] == name);
        }
        if is_name_line(lines[n - 1], name) {
            assert(all[before.len() as int] == name);
        }
    }
}

/// A symbol list names what stands on its lines, in order and each once.
pub proof fn law_symbol_list_names_its_lines(text: Seq<char>, name: Seq<u8>)
    requires
        symbol_list_of(text) is Ok,
    ensures
        symbol_list_of(text)->Ok_0.contains(name) <==> exists|i: int|
            0 <= i < text_lines(text).len() && is_name_line(#[trigger] text_lines(text)[i], name),
        ascending::<Vec<u8>>(symbol_list_of(text)->Ok_0),
{
    let lines = text_lines(text);
    let found = symbols_in(lines, lines.len() as int);
    lemma_lines(lines, lines.len() as int, name);
    lemma_sorted_form_exists::<Vec<u8>>(found);
    assert(symbol_list_of(text)->Ok_0.contains(name) <==> found.contains(name));
}

/// Whether a symbol of a shared object is one that others can link against.
pub open spec fn is_dynamic_name(symbol: SymbolView, name: Seq<u8>) -> bool {
    !symbol.undefined && symbol.global && name.len() > 0 && symbol.name == Some(name)
}

proof fn lemma_defined(symbols: Seq<SymbolView>, n: int, name: Seq<u8>)
    requires
        0 <= n <= symbols.len(),
    ensures
        defined_names(symbols, n).contains(name) <==> exists|i: int|
            0 <= i < n && is_dynamic_name(#[trigger] symbols[i], name),
    decreases n,
{
    if n > 0 {
        let before = defined_names(symbols, n - 1);
        let all = defined_names(symbols, n);
        lemma_defined(symbols, n - 1, name);
        if all.contains(name) {
            let k = choose|k: int| 0 <= k < all.len() && all[k] == name;
            if k < before.len() {
                assert(before[k] == name);
            } else {
                assert(is_dynamic_name(symbols[n - 1], name));
            }
        }
        if before.contains(name) {
            let k = choose|k: int| 0 <= k < before.len() && before[k] == name;
            assert(all[k] == name);
        }
        if is_dynamic_name(symbols[n - 1], name) {
            assert(all[before.len() as int] == name);
        }
    }
}

/// The stub of a shared object mirrors its defined global symbols, in order and each once.
pub proof fn law_stub_mirrors_the_dynamic_symbols(symbols: Seq<SymbolView>, name: Seq<u8>)
    requires
        exported_names(Some(symbols)) is Ok,
    ensures
        exported_names(Some(symbols))->Ok_0.contains(name) <==> exists|i: int|
            0 <= i < symbols.len() && is_dynamic_name(#[trigger] symbols[i], name),
        ascending::<Vec<u8>>(exported_names(Some(symbols))->Ok_0),
{
    let found = defined_names(symbols, symbols.len() as int);
    lemma_defined(symbols, symbols.len() as int, name);
    lemma_sorted_form_exists::<Vec<u8>>(found);
    assert(exported_names(Some(symbols))->Ok_0.contains(name) <==> found.contains(name));
}

} // verus!
