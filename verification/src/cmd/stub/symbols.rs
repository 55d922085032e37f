//! The symbols of an export surface.

use vstd::prelude::*;
use vstd::utf8::*;
use crate::bytes::{byte_rows, copy_bytes};
use crate::order::{sorted_distinct, sorted_form};
use crate::text::{
    begins_with, encode_chars, line_chars, rows, text_lines, to_chars, trim_chars, trimmed,
    upper_begins_with, upper_text,
};
use crate::util::objfile::{
    file_dynamic_symbols, read_dynamic_symbols, symbol_views, SymbolFact, SymbolView,
};
use super::StubError;

verus! {

/// Whether a line is one that only a module definition has.
pub open spec fn is_def_line(line: Seq<char>) -> bool {
    let upper = upper_text(trimmed(line));
    upper == "EXPORTS"@ || begins_with(upper, "LIBRARY "@) || begins_with(upper, "EXPORTS "@)
}

/// Whether the text is a module definition.
pub open spec fn is_def_text(text: Seq<char>) -> bool {
    exists|i: int| 0 <= i < text_lines(text).len() && #[trigger] is_def_line(text_lines(text)[i])
}

/// Whether the text is a module definition.
pub fn is_def(text: &str) -> (r: bool)
    ensures
        r == is_def_text(text@),
{
    let chars: Vec<char> = to_chars(text);
    let lines: Vec<Vec<char>> = line_chars(&chars);
    let exports: Vec<char> = to_chars("EXPORTS");
    let library: Vec<char> = to_chars("LIBRARY ");
    let exports_at: Vec<char> = to_chars("EXPORTS ");
    let ghost all = text_lines(text@);
    let mut i: usize = 0;
    while i < lines.len()
        invariant
            i <= lines@.len(),
            all == rows(lines@),
            all == text_lines(text@),
            exports@ == "EXPORTS"@,
            library@ == "LIBRARY "@,
            exports_at@ == "EXPORTS "@,
            forall|k: int| 0 <= k < i ==> !#[trigger] is_def_line(all[k]),
        decreases lines@.len() - i,
    {
        let line: &[char] = trim_chars(&lines[i]);
        assert(all[i as int] == lines@[i as int]@);
        let whole: bool = line.len() == exports.len() && upper_begins_with(line, &exports);
        proof {
            let upper = upper_text(line@);
            if line@.len() == exports@.len() {
                assert(upper.subrange(0, exports@.len() as int) =~= upper);
            }
        }
        if whole || upper_begins_with(line, &library) || upper_begins_with(line, &exports_at) {
            assert(is_def_line(all[i as int]));
            return true;
        }
        i = i + 1;
    }
    false
}

/// Whether a line of a symbol list holds a symbol: it is not blank and no comment.
pub open spec fn holds_symbol(line: Seq<char>) -> bool {
    trimmed(line).len() > 0 && trimmed(line)[0] != '#'
}

/// The symbols of the first `n` lines of a symbol list.
pub open spec fn symbols_in(lines: Seq<Seq<char>>, n: int) -> Seq<Seq<u8>>
    decreases n,
{
    if n <= 0 {
        Seq::empty()
    } else if holds_symbol(lines[n - 1]) {
        symbols_in(lines, n - 1).push(encode_utf8(trimmed(lines[n - 1])))
    } else {
        symbols_in(lines, n - 1)
    }
}

/// The symbols of a symbol list, in order and each once.
pub open spec fn symbol_list_of(text: Seq<char>) -> Result<Seq<Seq<u8>>, StubError> {
    if is_def_text(text) {
        Err(StubError::NeedsSymbolList)
    } else {
        let symbols = sorted_form::<Vec<u8>>(
            symbols_in(text_lines(text), text_lines(text).len() as int),
        );
        if symbols.len() == 0 {
            Err(StubError::NoSymbols)
        } else {
            Ok(symbols)
        }
    }
}

/// Read a symbol list.
pub fn parse_symbol_list(text: &str) -> (r: Result<Vec<Vec<u8>>, StubError>)
    ensures
        match r {
            Ok(names) => symbol_list_of(text@) == Ok::<Seq<Seq<u8>>, StubError>(
                byte_rows(names@),
            ),
            Err(e) => symbol_list_of(text@) == Err::<Seq<Seq<u8>>, StubError>(e),
        },
{
    if is_def(text) {
        return Err(StubError::NeedsSymbolList);
    }
    let chars: Vec<char> = to_chars(text);
    let lines: Vec<Vec<char>> = line_chars(&chars);
    let ghost all = text_lines(text@);
    let mut found: Vec<Vec<u8>> = Vec::new();
    let mut i: usize = 0;
    assert(byte_rows(found@) =~= Seq::empty());
    while i < lines.len()
        invariant
            i <= lines@.len(),
            all == rows(lines@),
            byte_rows(found@) == symbols_in(all, i as int),
        decreases lines@.len() - i,
    {
        let line: &[char] = trim_chars(&lines[i]);
        assert(all[i as int] == lines@[i as int]@);
        if line.len() > 0 && line[0] != '#' {
            let ghost before = byte_rows(found@);
            found.push(encode_chars(line));
            assert(byte_rows(found@) =~= before.push(encode_utf8(line@)));
        }
        i = i + 1;
    }
    let names: Vec<Vec<u8>> = sorted_distinct(&found);
    assert(byte_rows(names@).len() == names@.len());
    if names.len() == 0 {
        return Err(StubError::NoSymbols);
    }
    Ok(names)
}

/// The names of the symbols that a shared object defines for others.
pub open spec fn defined_names(symbols: Seq<SymbolView>, n: int) -> Seq<Seq<u8>>
    decreases n,
{
    if n <= 0 {
        Seq::empty()
    } else {
        let before = defined_names(symbols, n - 1);
        let s = symbols[n - 1];
        match s.name {
            Some(name) => if !s.undefined && s.global && name.len() > 0 {
                before.push(name)
            } else {
                before
            },
            None => before,
        }
    }
}

/// The names that mirror a shared object's defined dynamic symbols, in order and each once.
pub open spec fn exported_names(symbols: Option<Seq<SymbolView>>) -> Result<
    Seq<Seq<u8>>,
    StubError,
> {
    match symbols {
        None => Err(StubError::BadElf),
        Some(symbols) => {
            let names = sorted_form::<Vec<u8>>(defined_names(symbols, symbols.len() as int));
            if names.len() == 0 {
                Err(StubError::NoDynamicSymbols)
            } else {
                Ok(names)
            }
        },
    }
}

/// The names that mirror the dynamic symbols.
pub fn select_exported(symbols: Option<Vec<SymbolFact>>) -> (r: Result<Vec<Vec<u8>>, StubError>)
    ensures
        ({
            let views = match symbols {
                Some(symbols) => Some(symbol_views(symbols@)),
                None => None,
            };
            match r {
                Ok(names) => exported_names(views) == Ok::<Seq<Seq<u8>>, StubError>(
                    byte_rows(names@),
                ),
                Err(e) => exported_names(views) == Err::<Seq<Seq<u8>>, StubError>(e),
            }
        }),
{
    let symbols: Vec<SymbolFact> = match symbols {
        Some(symbols) => symbols,
        None => return Err(StubError::BadElf),
    };
    let ghost views = symbol_views(symbols@);
    let mut found: Vec<Vec<u8>> = Vec::new();
    let mut i: usize = 0;
    assert(byte_rows(found@) =~= Seq::empty());
    while i < symbols.len()
        invariant
            i <= symbols@.len(),
            views == symbol_views(symbols@),
            byte_rows(found@) == defined_names(views, i as int),
        decreases symbols@.len() - i,
    {
        let s: &SymbolFact = &symbols[i];
        assert(views[i as int] == s@);
        let ghost before = byte_rows(found@);
        match &s.name {
            Some(name) => {
                if !s.undefined && s.global && name.len() > 0 {
                    found.push(copy_bytes(name));
                    assert(byte_rows(found@) =~= before.push(name@));
                }
            },
            None => {},
        }
        i = i + 1;
    }
    let names: Vec<Vec<u8>> = sorted_distinct(&found);
    assert(byte_rows(names@).len() == names@.len());
    if names.len() == 0 {
        return Err(StubError::NoDynamicSymbols);
    }
    Ok(names)
}

/// Mirror a built shared object's defined dynamic symbols.
pub fn elf_dynamic_symbols(data: &[u8]) -> (r: Result<Vec<Vec<u8>>, StubError>)
    ensures
        match r {
            Ok(names) => exported_names(file_dynamic_symbols(data@)) == Ok::<
                Seq<Seq<u8>>,
                StubError,
            >(byte_rows(names@)),
            Err(e) => exported_names(file_dynamic_symbols(data@)) == Err::<
                Seq<Seq<u8>>,
                StubError,
            >(e),
        },
{
    select_exported(read_dynamic_symbols(data))
}

} // verus!
