//! COFF short import library.

use implib::def::ModuleDef;
use implib::{Flavor, ImportLibrary, MachineType};
use std::io::Cursor;
use vstd::prelude::*;
use crate::text::{copy_chars, find_char, line_chars, rows, string_from_chars, text_lines, to_chars};
use super::tokens::{is_plain, law_shortening_keeps_the_tokens, shorten, shortened, tokens};
use super::{Arch, StubError};

verus! {

/// The module name and the number of exports of a module definition that `implib` parses; nothing
/// where it does not parse.
pub uninterp spec fn parsed_def(text: Seq<char>, arch: Arch) -> Option<(Seq<char>, usize)>;

/// The import library that `implib` writes for a module definition whose imports bind to a module;
/// nothing where it cannot.
pub uninterp spec fn import_library(text: Seq<char>, arch: Arch, module: Seq<char>) -> Option<
    Seq<u8>,
>;

/// `implib::def::ModuleDef::parse`: the module name and the number of exports of a module
/// definition, under the name of the result. Its lexer calls itself for each comment and each run
/// of blanks that it skips, so a text with anything between its tokens is left out.
#[verifier::external_body]
fn parse_def(text: &str, arch: Arch) -> (r: Option<(String, usize)>)
    requires
        is_plain(text@),
    ensures
        match r {
            Some((name, exports)) => parsed_def(text@, arch) == Some((name@, exports)),
            None => parsed_def(text@, arch) is None,
        },
{
    let machine = match arch {
        Arch::X86_64 => MachineType::AMD64,
        Arch::Arm64 => MachineType::ARM64,
    };
    let def = ModuleDef::parse(text, machine).ok()?;
    Some((def.import_name, def.exports.len()))
}

/// `implib::ImportLibrary::write_to`, for the library that `ImportLibrary::from_def` makes of a
/// parsed module definition under another module name: its bytes, under the name of the result. The
/// definition is parsed first, so a text with anything between its tokens is left out here too.
#[verifier::external_body]
fn generate_library(text: &str, arch: Arch, module: &str) -> (r: Option<Vec<u8>>)
    requires
        is_plain(text@),
    ensures
        match r {
            Some(bytes) => import_library(text@, arch, module@) == Some(bytes@),
            None => import_library(text@, arch, module@) is None,
        },
{
    let machine = match arch {
        Arch::X86_64 => MachineType::AMD64,
        Arch::Arm64 => MachineType::ARM64,
    };
    let mut def = ModuleDef::parse(text, machine).ok()?;
    def.import_name = module.to_string();
    let mut out = Cursor::new(Vec::new());
    ImportLibrary::from_def(def, machine, Flavor::Msvc).write_to(&mut out).ok()?;
    Some(out.into_inner())
}

/// A line up to its first equals sign.
pub open spec fn name_part(line: Seq<char>) -> Seq<char> {
    match line.index_of_first('=') {
        Some(i) => line.subrange(0, i),
        None => line,
    }
}

/// The name parts of the first `n` lines, with a line feed between two of them.
pub open spec fn joined_names(lines: Seq<Seq<char>>, n: int) -> Seq<char>
    decreases n,
{
    if n <= 0 {
        Seq::empty()
    } else if n == 1 {
        name_part(lines[0])
    } else {
        joined_names(lines, n - 1) + seq!['\n'] + name_part(lines[n - 1])
    }
}

/// A module definition without the targets of its exports. Imports don't care where the module
/// forwards an export to, and `implib` emits members for both sides of `name=target`.
pub open spec fn without_targets(text: Seq<char>) -> Seq<char> {
    joined_names(text_lines(text), text_lines(text).len() as int)
}

/// Take the targets off the exports of a module definition.
pub fn drop_targets(text: &str) -> (r: String)
    ensures
        r@ == without_targets(text@),
{
    let chars: Vec<char> = to_chars(text);
    let lines: Vec<Vec<char>> = line_chars(&chars);
    let ghost all = text_lines(text@);
    let mut out: Vec<char> = Vec::new();
    let mut i: usize = 0;
    while i < lines.len()
        invariant
            i <= lines@.len(),
            all == rows(lines@),
            out@ == joined_names(all, i as int),
        decreases lines@.len() - i,
    {
        let line: &Vec<char> = &lines[i];
        let ghost before = out@;
        let end: usize = match find_char(line, '=') {
            Some(at) => at,
            None => line.len(),
        };
        assert(all[i as int] == line@);
        assert(line@.subrange(0, line@.len() as int) =~= line@);
        if i > 0 {
            out.push('\n');
        }
        let mut part: Vec<char> = copy_chars(&line[0..end]);
        assert(part@ == name_part(all[i as int]));
        let ghost head = out@;
        out.append(&mut part);
        assert(out@ =~= head + name_part(all[i as int]));
        assert(out@ =~= joined_names(all, i + 1));
        i = i + 1;
    }
    string_from_chars(&out)
}

/// What is decided once a module definition was parsed: the module that imports bind to, which is
/// the one asked for, or else the one that the definition names.
pub open spec fn bound_module(
    parsed: Option<(Seq<char>, usize)>,
    dll_name: Option<Seq<char>>,
) -> Result<Seq<char>, StubError> {
    match parsed {
        None => Err(StubError::BadDef),
        Some((named, _)) => {
            let module = match dll_name {
                Some(name) => name,
                None => named,
            };
            if module.len() == 0 {
                Err(StubError::NoModuleName)
            } else {
                Ok(module)
            }
        },
    }
}

/// The module that imports bind to.
pub fn choose_module(parsed: Option<(String, usize)>, dll_name: Option<String>) -> (r: Result<
    String,
    StubError,
>)
    ensures
        ({
            let found = match parsed {
                Some((name, n)) => Some((name@, n)),
                None => None,
            };
            let wanted = match dll_name {
                Some(name) => Some(name@),
                None => None,
            };
            match r {
                Ok(name) => bound_module(found, wanted) == Ok::<Seq<char>, StubError>(name@),
                Err(e) => bound_module(found, wanted) == Err::<Seq<char>, StubError>(e),
            }
        }),
{
    let (named, _count) = match parsed {
        Some(found) => found,
        None => return Err(StubError::BadDef),
    };
    let module: String = match dll_name {
        Some(name) => name,
        None => named,
    };
    if to_chars(&module).len() == 0 {
        return Err(StubError::NoModuleName);
    }
    Ok(module)
}

/// The import library of a module definition, and the number of its imports. The definition is
/// parsed without the targets of its exports and without what stands between its tokens.
pub open spec fn implib_of(text: Seq<char>, arch: Arch, dll_name: Option<Seq<char>>) -> Result<
    (Seq<u8>, usize),
    StubError,
> {
    let bare = shortened(without_targets(text));
    let parsed = parsed_def(bare, arch);
    match bound_module(parsed, dll_name) {
        Err(e) => Err(e),
        Ok(module) => match import_library(bare, arch, module) {
            None => Err(StubError::Generate),
            Some(bytes) => Ok((bytes, parsed->Some_0.1)),
        },
    }
}

/// Generate the import library of a module definition.
pub fn generate_implib(text: &str, arch: Arch, dll_name: &Option<String>) -> (r: Result<
    (Vec<u8>, usize),
    StubError,
>)
    ensures
        ({
            let wanted = match *dll_name {
                Some(name) => Some(name@),
                None => None,
            };
            match r {
                Ok((bytes, count)) => implib_of(text@, arch, wanted) == Ok::<
                    (Seq<u8>, usize),
                    StubError,
                >((bytes@, count)),
                Err(e) => implib_of(text@, arch, wanted) == Err::<(Seq<u8>, usize), StubError>(e),
            }
        }),
{
    let bare: String = shorten(&drop_targets(text));
    let parsed: Option<(String, usize)> = parse_def(&bare, arch);
    let count: usize = match &parsed {
        Some((_name, count)) => *count,
        None => 0,
    };
    let wanted: Option<String> = match dll_name {
        Some(name) => Some(string_from_chars(&to_chars(name))),
        None => None,
    };
    let module: String = choose_module(parsed, wanted)?;
    match generate_library(&bare, arch, &module) {
        Some(bytes) => Ok((bytes, count)),
        None => Err(StubError::Generate),
    }
}

proof fn lemma_no_targets(lines: Seq<Seq<char>>, n: int)
    requires
        n <= lines.len(),
    ensures
        !joined_names(lines, n).contains('='),
    decreases n,
{
    if n > 0 {
        lemma_no_targets(lines, n - 1);
        let line = lines[n - 1];
        line.index_of_first_ensures('=');
        let all = joined_names(lines, n);
        if all.contains('=') {
            let i = choose|i: int| 0 <= i < all.len() && all[i] == '=';
            let before = joined_names(lines, n - 1);
            if n > 1 && i < before.len() {
                assert(before[i] == '=');
            } else {
                let k = if n > 1 {
                    i - before.len() - 1
                } else {
                    i
                };
                assert(name_part(line)[k] == '=');
                assert(line[k] == '=');
            }
        }
    }
}

/// What a module definition is parsed from has the tokens of the definition without the targets of
/// its exports.
pub proof fn law_definition_keeps_its_tokens(text: Seq<char>)
    ensures
        tokens(shortened(without_targets(text))) == tokens(without_targets(text)),
{
    lemma_no_targets(text_lines(text), text_lines(text).len() as int);
    law_shortening_keeps_the_tokens(without_targets(text));
}

/// The lines up to their first equals signs.
pub open spec fn cut_lines(lines: Seq<Seq<char>>) -> Seq<Seq<char>> {
    Seq::new(lines.len(), |i: int| name_part(lines[i]))
}

proof fn lemma_cut_twice(line: Seq<char>)
    ensures
        name_part(name_part(line)) == name_part(line),
{
    line.index_of_first_ensures('=');
    let part = name_part(line);
    part.index_of_first_ensures('=');
    if part.contains('=') {
        let i = choose|i: int| 0 <= i < part.len() && part[i] == '=';
        assert(line[i] == '=');
        assert(line.contains('='));
    }
}

proof fn lemma_cut_joined(lines: Seq<Seq<char>>, n: int)
    requires
        n <= lines.len(),
    ensures
        joined_names(cut_lines(lines), n) == joined_names(lines, n),
    decreases n,
{
    if n > 0 {
        lemma_cut_joined(lines, n - 1);
        lemma_cut_twice(lines[n - 1]);
    }
}

/// A forward imports as its name, whatever its target: a module definition whose lines were cut
/// before their first equals signs gives the same import library.
pub proof fn law_forward_imports_as_its_name(
    text: Seq<char>,
    cut: Seq<char>,
    arch: Arch,
    dll_name: Option<Seq<char>>,
)
    requires
        text_lines(cut) == cut_lines(text_lines(text)),
    ensures
        implib_of(cut, arch, dll_name) == implib_of(text, arch, dll_name),
{
    lemma_cut_joined(text_lines(text), text_lines(text).len() as int);
}

} // verus!
