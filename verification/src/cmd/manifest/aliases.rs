//! Aliases of functions by the source file that they stand in.

use vstd::prelude::*;
use vstd::utf8::*;
use crate::bytes::{begins, bytes_begin};
use crate::text::{
    begins_with, chars_begin_with, copy_chars, find_char, string_from_chars, to_chars,
};
use crate::util::manifest::format::{ManifestSymbol, SymbolModel, FLAG_CODE, FLAG_DISPLAY};
use super::names::{
    chosen_display, demangled_of, display_name, is_skip_symbol, is_skipped, is_special,
    is_special_mangled,
};

pub use super::path::SourceRoot;

verus! {

/// The text without the occurrences of a part, taken from the left.
pub open spec fn removed(s: Seq<char>, part: Seq<char>) -> Seq<char>
    decreases s.len(),
{
    if part.len() == 0 || s.len() < part.len() {
        s
    } else if begins_with(s, part) {
        removed(s.subrange(part.len() as int, s.len() as int), part)
    } else {
        seq![s[0]] + removed(s.subrange(1, s.len() as int), part)
    }
}

/// Remove the occurrences of a part.
fn remove(s: &[char], part: &[char]) -> (r: Vec<char>)
    ensures
        r@ == removed(s@, part@),
{
    if part.len() == 0 {
        return copy_chars(s);
    }
    let mut out: Vec<char> = Vec::new();
    let mut i: usize = 0;
    assert(s@.subrange(0, s@.len() as int) =~= s@);
    assert(out@ + removed(s@, part@) =~= removed(s@, part@));
    while part.len() <= s.len() - i
        invariant
            i <= s@.len(),
            part@.len() > 0,
            out@ + removed(s@.subrange(i as int, s@.len() as int), part@) == removed(s@, part@),
        decreases s@.len() - i,
    {
        let rest: &[char] = &s[i..s.len()];
        let ghost before = out@;
        if chars_begin_with(rest, part) {
            proof {
                let tail = rest@.subrange(part@.len() as int, rest@.len() as int);
                assert(tail =~= s@.subrange(i + part@.len(), s@.len() as int));
            }
            i = i + part.len();
        } else {
            out.push(rest[0]);
            proof {
                let tail = rest@.subrange(1, rest@.len() as int);
                assert(tail =~= s@.subrange(i + 1, s@.len() as int));
                assert(before + (seq![rest@[0]] + removed(tail, part@)) =~= out@ + removed(
                    tail,
                    part@,
                ));
            }
            i = i + 1;
        }
    }
    let mut tail: Vec<char> = copy_chars(&s[i..s.len()]);
    out.append(&mut tail);
    out
}

/// Whether a text holds a part.
pub open spec fn holds_text(s: Seq<char>, part: Seq<char>) -> bool {
    exists|i: int|
        0 <= i && i + part.len() <= s.len() && #[trigger] s.subrange(i, i + part.len()) == part
}

pub(crate) fn text_holds(s: &[char], part: &[char]) -> (r: bool)
    ensures
        r == holds_text(s@, part@),
{
    let mut i: usize = 0;
    while i < s.len() && part.len() <= s.len() - i
        invariant
            i <= s@.len(),
            forall|k: int|
                0 <= k < i && k + part@.len() <= s@.len() ==> #[trigger] s@.subrange(
                    k,
                    k + part@.len(),
                ) != part@,
        decreases s@.len() - i,
    {
        let rest: &[char] = &s[i..s.len()];
        assert(rest@.subrange(0, part@.len() as int) =~= s@.subrange(
            i as int,
            i + part@.len(),
        ));
        if chars_begin_with(rest, part) {
            return true;
        }
        i = i + 1;
    }
    if part.len() == 0 {
        assert(s@.subrange(0, 0 + part@.len() as int) =~= part@);
        return true;
    }
    false
}

/// The name of a function without the anonymous namespaces that it stands in; nothing for
/// function-local entities and lambdas, whose spellings are those of their producers.
pub open spec fn canonical(name: Seq<char>) -> Option<Seq<char>> {
    let plain = removed(
        removed(removed(name, "(anonymous namespace)::"@), "`anonymous namespace'::"@),
        "{anonymous}::"@,
    );
    if plain.len() == 0 || plain.contains('`') || holds_text(plain, "{lambda"@) || holds_text(
        plain,
        "<lambda"@,
    ) {
        None
    } else {
        Some(plain)
    }
}

/// The canonical name of a function. PDB procedure records and parameter-free Itanium names share
/// this final step.
pub fn canonical_name(name: &str) -> (r: Option<String>)
    ensures
        match r {
            Some(plain) => canonical(name@) == Some(plain@),
            None => canonical(name@) is None,
        },
{
    let first: Vec<char> = remove(&to_chars(name), &to_chars("(anonymous namespace)::"));
    let second: Vec<char> = remove(&first, &to_chars("`anonymous namespace'::"));
    let plain: Vec<char> = remove(&second, &to_chars("{anonymous}::"));
    proof {
        plain@.index_of_first_ensures('`');
    }
    if plain.len() == 0 || find_char(&plain, '`').is_some() || text_holds(
        &plain,
        &to_chars("{lambda"),
    ) || text_holds(&plain, &to_chars("<lambda")) {
        return None;
    }
    Some(string_from_chars(&plain))
}

/// The name under which a function of a binary gets an alias: its display name where it is mangled.
/// Only ordinary functions have one.
pub open spec fn binary_alias(name: Seq<char>, ordinary: bool) -> Option<Seq<char>> {
    let bytes = encode_utf8(name);
    if is_skipped(bytes) || is_special(bytes) || !ordinary {
        None
    } else if begins(bytes, encode_utf8("_Z"@)) {
        chosen_display(name, demangled_of(name))
    } else {
        Some(name)
    }
}

/// Find the name under which a function of a binary gets an alias.
pub fn binary_name(name: &str, ordinary: bool) -> (r: Option<String>)
    ensures
        match r {
            Some(alias) => binary_alias(name@, ordinary) == Some(alias@),
            None => binary_alias(name@, ordinary) is None,
        },
{
    if is_skip_symbol(name) || is_special_mangled(name) || !ordinary {
        return None;
    }
    if bytes_begin(name.as_bytes(), "_Z".as_bytes()) {
        display_name(name)
    } else {
        Some(string_from_chars(&to_chars(name)))
    }
}

/// A function with its source file. Where it was found is kept for diagnostics; it never takes part
/// in the spelling of the alias.
pub struct FunctionRecord {
    pub source: String,
    pub name: String,
    pub rva: u64,
    pub flags: u32,
    pub provenance: String,
}

/// The alias of a function: its source file, and behind it its canonical name.
pub open spec fn alias_of(source: Seq<char>, name: Seq<char>, rva: u64, flags: u32) -> Option<
    SymbolModel,
> {
    match canonical(name) {
        Some(plain) => Some(
            SymbolModel {
                name: encode_utf8(source + "#"@ + plain),
                rva,
                flags: flags | FLAG_CODE | FLAG_DISPLAY,
            },
        ),
        None => None,
    }
}

impl FunctionRecord {
    /// The alias of the function.
    pub fn into_alias(self) -> (r: Option<ManifestSymbol>)
        ensures
            match r {
                Some(alias) => alias_of(self.source@, self.name@, self.rva, self.flags) == Some(
                    alias@,
                ),
                None => alias_of(self.source@, self.name@, self.rva, self.flags) is None,
            },
    {
        let plain: String = match canonical_name(self.name.as_str()) {
            Some(plain) => plain,
            None => return None,
        };
        let mut out: Vec<char> = to_chars(self.source.as_str());
        let mut mark: Vec<char> = to_chars("#");
        let mut tail: Vec<char> = to_chars(plain.as_str());
        out.append(&mut mark);
        out.append(&mut tail);
        Some(
            ManifestSymbol {
                name: string_from_chars(&out),
                rva: self.rva,
                flags: self.flags | FLAG_CODE | FLAG_DISPLAY,
            },
        )
    }
}

} // verus!
