//! Which symbols are listed, and what they are called.

use cpp_demangle::{DemangleOptions, Symbol};
use vstd::prelude::*;
use vstd::utf8::*;
use crate::bytes::{begins, bytes_begin, bytes_hold, holds, same_bytes};

verus! {

/// Compiler-generated locals that are never hook or link targets.
pub open spec fn is_skipped(name: Seq<u8>) -> bool {
    // assembler-local labels
    ||| begins(name, encode_utf8("ltmp"@))
    ||| begins(name, encode_utf8("l_"@))
    ||| begins(name, encode_utf8("L_"@))
    // dynamic initializer pieces
    ||| begins(name, encode_utf8("__cxx_global_var_init"@))
    // TU initializer drivers
    ||| begins(name, encode_utf8("_GLOBAL__sub_I"@))
    ||| begins(name, encode_utf8("GCC_except_table"@))
    ||| begins(name, encode_utf8("__GCC_except_table"@))
    // anonymous globals
    ||| begins(name, encode_utf8("__unnamed_"@))
    // linker/compiler outlining artifacts
    ||| begins(name, encode_utf8("OUTLINED_FUNCTION_"@))
    // MSVC pdata/xdata labels
    ||| begins(name, encode_utf8("$"@))
    // import pointers (PDB publics carry these)
    ||| begins(name, encode_utf8("__imp_"@))
    // literals/constants
    ||| begins(name, encode_utf8("??_C@"@))
    ||| begins(name, encode_utf8("__real@"@))
    ||| begins(name, encode_utf8("__xmm@"@))
    ||| begins(name, encode_utf8("__ymm@"@))
}

/// Whether the symbol is never a hook or link target.
pub fn is_skip_symbol(name: &str) -> (r: bool)
    ensures
        r == is_skipped(encode_utf8(name@)),
{
    let name: &[u8] = name.as_bytes();
    bytes_begin(name, "ltmp".as_bytes()) || bytes_begin(name, "l_".as_bytes()) || bytes_begin(
        name,
        "L_".as_bytes(),
    ) || bytes_begin(name, "__cxx_global_var_init".as_bytes()) || bytes_begin(
        name,
        "_GLOBAL__sub_I".as_bytes(),
    ) || bytes_begin(name, "GCC_except_table".as_bytes()) || bytes_begin(
        name,
        "__GCC_except_table".as_bytes(),
    ) || bytes_begin(name, "__unnamed_".as_bytes()) || bytes_begin(
        name,
        "OUTLINED_FUNCTION_".as_bytes(),
    ) || bytes_begin(name, "$".as_bytes()) || bytes_begin(name, "__imp_".as_bytes())
        || bytes_begin(name, "??_C@".as_bytes()) || bytes_begin(name, "__real@".as_bytes())
        || bytes_begin(name, "__xmm@".as_bytes()) || bytes_begin(name, "__ymm@".as_bytes())
}

/// Mangled names whose demangling is not a plain qualified name (vtables, typeinfo, thunks, guard
/// variables, function-scope statics, Rust v0), so no display alias.
pub open spec fn is_special(name: Seq<u8>) -> bool {
    ||| begins(name, encode_utf8("_ZTV"@))
    ||| begins(name, encode_utf8("_ZTI"@))
    ||| begins(name, encode_utf8("_ZTS"@))
    ||| begins(name, encode_utf8("_ZTh"@))
    ||| begins(name, encode_utf8("_ZTv"@))
    ||| begins(name, encode_utf8("_ZTc"@))
    ||| begins(name, encode_utf8("_ZGV"@))
    ||| begins(name, encode_utf8("_ZGR"@))
    ||| begins(name, encode_utf8("_ZGTt"@))
    ||| begins(name, encode_utf8("_ZZ"@))
    ||| begins(name, encode_utf8("_R"@))
}

/// Whether the demangling of a name is not a plain qualified name.
pub fn is_special_mangled(name: &str) -> (r: bool)
    ensures
        r == is_special(encode_utf8(name@)),
{
    let name: &[u8] = name.as_bytes();
    bytes_begin(name, "_ZTV".as_bytes()) || bytes_begin(name, "_ZTI".as_bytes()) || bytes_begin(
        name,
        "_ZTS".as_bytes(),
    ) || bytes_begin(name, "_ZTh".as_bytes()) || bytes_begin(name, "_ZTv".as_bytes())
        || bytes_begin(name, "_ZTc".as_bytes()) || bytes_begin(name, "_ZGV".as_bytes())
        || bytes_begin(name, "_ZGR".as_bytes()) || bytes_begin(name, "_ZGTt".as_bytes())
        || bytes_begin(name, "_ZZ".as_bytes()) || bytes_begin(name, "_R".as_bytes())
}

pub open spec fn is_hex_byte(c: u8) -> bool {
    0x30 <= c <= 0x39 || 0x41 <= c <= 0x46 || 0x61 <= c <= 0x66
}

/// Whether a demangled name is a path of the legacy Rust mangling: it ends in `::h` and sixteen
/// hexadecimal digits.
pub open spec fn is_legacy(display: Seq<u8>) -> bool {
    let n = display.len() as int;
    &&& n >= 19
    &&& display.subrange(n - 19, n - 16) == encode_utf8("::h"@)
    &&& forall|i: int| n - 16 <= i < n ==> is_hex_byte(#[trigger] display[i])
}

/// Whether a demangled name is a path of the legacy Rust mangling.
pub fn is_rust_legacy(display: &str) -> (r: bool)
    ensures
        r == is_legacy(encode_utf8(display@)),
{
    let bytes: &[u8] = display.as_bytes();
    let n: usize = bytes.len();
    if n < 19 || !same_bytes(&bytes[n - 19..n - 16], "::h".as_bytes()) {
        return false;
    }
    let mut i: usize = n - 16;
    while i < n
        invariant
            n == bytes@.len(),
            n >= 19,
            bytes@ == encode_utf8(display@),
            bytes@.subrange(n - 19, n - 16) == encode_utf8("::h"@),
            n - 16 <= i <= n,
            forall|k: int| n - 16 <= k < i ==> is_hex_byte(#[trigger] bytes@[k]),
        decreases n - i,
    {
        let c: u8 = bytes[i];
        if !(0x30 <= c && c <= 0x39 || 0x41 <= c && c <= 0x46 || 0x61 <= c && c <= 0x66) {
            return false;
        }
        i = i + 1;
    }
    true
}

/// The name that `cpp_demangle` gives a symbol, without parameters and return type.
pub uninterp spec fn demangled_name(mangled: Seq<char>) -> Option<Seq<char>>;

/// A template parameter with the largest number that there is.
pub open spec fn largest_parameter() -> Seq<char> {
    if isize::MAX == 0x7fff_ffff {
        "T2147483647"@
    } else {
        "T9223372036854775807"@
    }
}

/// Whether a name holds a template parameter with the largest number that there is.
pub open spec fn has_largest_parameter(mangled: Seq<char>) -> bool {
    holds(encode_utf8(mangled), encode_utf8(largest_parameter()))
}

/// Whether a name holds a template parameter with the largest number that there is.
pub fn holds_largest_parameter(mangled: &str) -> (r: bool)
    ensures
        r == has_largest_parameter(mangled@),
{
    let largest: &str = if isize::MAX == 0x7fff_ffff {
        "T2147483647"
    } else {
        "T9223372036854775807"
    };
    bytes_hold(mangled.as_bytes(), largest.as_bytes())
}

/// `cpp_demangle::Symbol::demangle_with_options`: the demangled name without parameters and return
/// type, under the name of the result. There is none where the symbol does not parse or cannot be
/// written out. A name with the largest template parameter is left out: the crate counts one further
/// without a test that the number fits.
#[verifier::external_body]
fn demangle(mangled: &str) -> (r: Option<String>)
    requires
        !has_largest_parameter(mangled@),
    ensures
        match r {
            Some(name) => demangled_name(mangled@) == Some(name@),
            None => demangled_name(mangled@) is None,
        },
{
    let options = DemangleOptions::new().no_params().no_return_type();
    Symbol::new(mangled.as_bytes()).ok()?.demangle_with_options(&options).ok()
}

/// The display name of a symbol whose demangled name is given: a plain qualified name, and nothing
/// for special symbols and for hash-suffixed Rust paths.
pub open spec fn chosen_display(mangled: Seq<char>, demangled: Option<Seq<char>>) -> Option<
    Seq<char>,
> {
    match demangled {
        None => None,
        Some(display) => if !begins(encode_utf8(mangled), encode_utf8("_Z"@)) || is_special(
            encode_utf8(mangled),
        ) || display.len() == 0 || encode_utf8(display) == encode_utf8(mangled) || is_legacy(
            encode_utf8(display),
        ) {
            None
        } else {
            Some(display)
        },
    }
}

/// Choose the display name of a symbol whose demangled name is given.
pub fn choose_display(mangled: &str, demangled: Option<String>) -> (r: Option<String>)
    ensures
        match (r, demangled) {
            (Some(display), Some(name)) => chosen_display(mangled@, Some(name@)) == Some(display@),
            (None, Some(name)) => chosen_display(mangled@, Some(name@)) is None,
            (Some(_), None) => false,
            (None, None) => true,
        },
{
    let display: String = match demangled {
        Some(display) => display,
        None => return None,
    };
    let bytes: &[u8] = display.as_str().as_bytes();
    proof {
        if display@.len() == 0 {
            assert(encode_utf8(display@) =~= Seq::empty());
        } else {
            lemma_encoding_is_not_empty(display@);
        }
    }
    if !bytes_begin(mangled.as_bytes(), "_Z".as_bytes()) || is_special_mangled(mangled)
        || bytes.len() == 0 || same_bytes(bytes, mangled.as_bytes()) || is_rust_legacy(
        display.as_str(),
    ) {
        return None;
    }
    Some(display)
}

proof fn lemma_encoding_is_not_empty(text: Seq<char>)
    requires
        text.len() > 0,
    ensures
        encode_utf8(text).len() > 0,
{
}

/// The demangled name of a symbol. A name with the largest template parameter has none.
pub open spec fn demangled_of(mangled: Seq<char>) -> Option<Seq<char>> {
    if has_largest_parameter(mangled) {
        None
    } else {
        demangled_name(mangled)
    }
}

/// `Class::method`-style display name for an Itanium-mangled symbol: qualified name only, no
/// parameter list or return type. PDB module procedure records have names of the same shape.
pub fn display_name(mangled: &str) -> (r: Option<String>)
    ensures
        match r {
            Some(display) => chosen_display(mangled@, demangled_of(mangled@)) == Some(display@),
            None => chosen_display(mangled@, demangled_of(mangled@)) is None,
        },
{
    if !bytes_begin(mangled.as_bytes(), "_Z".as_bytes()) || is_special_mangled(mangled)
        || holds_largest_parameter(mangled) {
        return None;
    }
    choose_display(mangled, demangle(mangled))
}

} // verus!
