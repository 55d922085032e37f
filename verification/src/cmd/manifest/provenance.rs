//! The source files of PDB modules.

use std::collections::HashMap;
use vstd::prelude::*;
use vstd::utf8::*;
use crate::order::{distinct_order, keys, sorted_form};
use crate::text::{lower_string, lower_text, same_chars, string_from_chars, to_chars};
use super::aliases::{holds_text, text_holds};
use super::path::{source_in, PathView, SourceRoot};

verus! {

/// Why the source file of a module cannot be told.
#[derive(Clone, Copy, Debug, PartialEq, Eq, Structural)]
pub enum ProvenanceError {
    /// String ids refer to each other in a cycle, or too deeply.
    TooDeep,
    MissingString(u32),
    MissingList,
    MissingBuildInfo,
    /// The build information has no working directory or no main source.
    FewArguments,
    /// There are procedures, but no record of the language that they are compiled from.
    NoLanguage,
    /// There is no build information, and there are so many possible sources.
    NoPrimarySource(usize),
}

impl ProvenanceError {
    pub fn message(self) -> (r: &'static str)
        ensures
            r@ == match self {
                ProvenanceError::TooDeep =>
                    "Cyclic or excessively deep PDB build-info string IDs"@,
                ProvenanceError::MissingString(_) => "Missing PDB build-info string ID"@,
                ProvenanceError::MissingList => "Missing PDB build-info substring list"@,
                ProvenanceError::MissingBuildInfo => "Missing LF_BUILDINFO for S_BUILDINFO"@,
                ProvenanceError::FewArguments =>
                    "PDB LF_BUILDINFO is missing current-directory/main-source arguments"@,
                ProvenanceError::NoLanguage =>
                    "PDB module has emitted procedures but no language compile record; rebuild with /Zi or /Z7 (TU scope is unknown)"@,
                ProvenanceError::NoPrimarySource(_) =>
                    "C/C++ PDB module has no primary-source build info; rebuild with /Zi or /Z7 using a producer that records S_BUILDINFO"@,
            },
    {
        match self {
            ProvenanceError::TooDeep => "Cyclic or excessively deep PDB build-info string IDs",
            ProvenanceError::MissingString(_) => "Missing PDB build-info string ID",
            ProvenanceError::MissingList => "Missing PDB build-info substring list",
            ProvenanceError::MissingBuildInfo => "Missing LF_BUILDINFO for S_BUILDINFO",
            ProvenanceError::FewArguments =>
                "PDB LF_BUILDINFO is missing current-directory/main-source arguments",
            ProvenanceError::NoLanguage =>
                "PDB module has emitted procedures but no language compile record; rebuild with /Zi or /Z7 (TU scope is unknown)",
            ProvenanceError::NoPrimarySource(_) =>
                "C/C++ PDB module has no primary-source build info; rebuild with /Zi or /Z7 using a producer that records S_BUILDINFO",
        }
    }
}

/// The build information of a PDB, each kind of record by its id.
pub struct BuildInfo {
    pub arguments: HashMap<u32, Vec<u32>>,
    /// Strings, each with the list of the strings that go before it.
    pub strings: HashMap<u32, (Option<u32>, String)>,
    pub lists: HashMap<u32, Vec<u32>>,
}

impl Default for BuildInfo {
    fn default() -> (r: Self)
        ensures
            r.arguments@ == Map::<u32, Vec<u32>>::empty(),
            r.strings@ == Map::<u32, (Option<u32>, String)>::empty(),
            r.lists@ == Map::<u32, Vec<u32>>::empty(),
    {
        BuildInfo { arguments: HashMap::new(), strings: HashMap::new(), lists: HashMap::new() }
    }
}

/// How deep string ids may still go.
pub open spec fn depth_left(depth: int) -> int {
    if depth < 32 {
        32 - depth
    } else {
        0
    }
}

/// The text of a string id: the texts of the list before it, and its own. Id zero is the empty text.
pub open spec fn string_text(info: BuildInfo, index: u32, depth: int) -> Result<
    Seq<char>,
    ProvenanceError,
>
    decreases depth_left(depth), 0int,
{
    if index == 0 {
        Ok(Seq::empty())
    } else if depth >= 32 {
        Err(ProvenanceError::TooDeep)
    } else if !info.strings@.contains_key(index) {
        Err(ProvenanceError::MissingString(index))
    } else {
        match info.strings@[index].0 {
            None => Ok(info.strings@[index].1@),
            Some(prefix) => if !info.lists@.contains_key(prefix) {
                Err(ProvenanceError::MissingList)
            } else {
                match list_text(
                    info,
                    info.lists@[prefix]@,
                    info.lists@[prefix]@.len() as int,
                    depth + 1,
                ) {
                    Err(e) => Err(e),
                    Ok(before) => Ok(before + info.strings@[index].1@),
                }
            },
        }
    }
}

/// The texts of the first `n` string ids of a list.
pub open spec fn list_text(info: BuildInfo, list: Seq<u32>, n: int, depth: int) -> Result<
    Seq<char>,
    ProvenanceError,
>
    decreases depth_left(depth), n,
{
    if n <= 0 {
        Ok(Seq::empty())
    } else {
        match list_text(info, list, n - 1, depth) {
            Err(e) => Err(e),
            Ok(before) => match string_text(info, list[n - 1], depth) {
                Err(e) => Err(e),
                Ok(part) => Ok(before + part),
            },
        }
    }
}

proof fn lemma_list_error(info: BuildInfo, list: Seq<u32>, n: int, m: int, depth: int)
    requires
        0 <= n <= m,
        list_text(info, list, n, depth) is Err,
    ensures
        list_text(info, list, m, depth) == list_text(info, list, n, depth),
    decreases m,
{
    if n < m {
        lemma_list_error(info, list, n, m - 1, depth);
    }
}

/// A symbol of a module that tells of its source.
pub enum ModuleSymbol {
    /// The language that the module is compiled from, and the version of the compiler.
    CompileFlags { c_or_cpp: bool, version: String },
    BuildInfo(u32),
    Procedure,
}

/// What the symbols of a module tell.
pub struct Told {
    pub cpp: bool,
    pub compile: bool,
    pub procedures: bool,
    pub build_info: Option<u32>,
}

/// What the first `n` symbols of a module tell. Rust counts as another language.
pub open spec fn told_by(symbols: Seq<ModuleSymbol>, n: int) -> Told
    decreases n,
{
    if n <= 0 {
        Told { cpp: false, compile: false, procedures: false, build_info: None }
    } else {
        let so_far = told_by(symbols, n - 1);
        match symbols[n - 1] {
            ModuleSymbol::CompileFlags { c_or_cpp, version } => Told {
                cpp: c_or_cpp && !holds_text(lower_text(version@), "rustc"@),
                compile: true,
                ..so_far
            },
            ModuleSymbol::BuildInfo(id) => Told { build_info: Some(id), ..so_far },
            ModuleSymbol::Procedure => Told { procedures: true, ..so_far },
        }
    }
}

/// What the build information tells of a module's source file.
#[derive(Debug)]
pub enum Primary {
    /// The path below the root, or nothing for a module that is out of scope.
    Known(Option<String>),
    /// Only the files of the line program can tell.
    Files,
}

/// What the build information tells, as a plain value.
pub enum PrimaryView {
    Known(Option<Seq<char>>),
    Files,
}

impl View for Primary {
    type V = PrimaryView;

    open spec fn view(&self) -> PrimaryView {
        match self {
            Primary::Known(Some(path)) => PrimaryView::Known(Some(path@)),
            Primary::Known(None) => PrimaryView::Known(None),
            Primary::Files => PrimaryView::Files,
        }
    }
}

/// What build information tells of a C or C++ module's source file: it holds the working directory,
/// the compiler, the main source, the PDB and the command line.
pub open spec fn recorded_source(info: BuildInfo, id: u32, root: PathView) -> Result<
    PrimaryView,
    ProvenanceError,
> {
    if !info.arguments@.contains_key(id) {
        Err(ProvenanceError::MissingBuildInfo)
    } else if info.arguments@[id]@.len() < 3 {
        Err(ProvenanceError::FewArguments)
    } else {
        match (
            string_text(info, info.arguments@[id]@[0], 0),
            string_text(info, info.arguments@[id]@[2], 0),
        ) {
            (Err(e), _) => Err(e),
            (_, Err(e)) => Err(e),
            (Ok(dir), Ok(name)) => if name.len() > 0 {
                Ok(PrimaryView::Known(source_in(root, name, dir)))
            } else {
                Ok(PrimaryView::Files)
            },
        }
    }
}

/// What is told of a module's source file.
pub open spec fn primary_source(info: BuildInfo, symbols: Seq<ModuleSymbol>, root: PathView) -> Result<
    PrimaryView,
    ProvenanceError,
> {
    let told = told_by(symbols, symbols.len() as int);
    if !told.cpp {
        if told.compile || !told.procedures {
            Ok(PrimaryView::Known(None))
        } else {
            Err(ProvenanceError::NoLanguage)
        }
    } else {
        match told.build_info {
            Some(id) => recorded_source(info, id, root),
            None => Ok(PrimaryView::Files),
        }
    }
}

impl BuildInfo {
    /// The text of a string id.
    pub fn string(&self, index: u32, depth: usize) -> (r: Result<String, ProvenanceError>)
        ensures
            match r {
                Ok(text) => string_text(*self, index, depth as int) == Ok::<
                    Seq<char>,
                    ProvenanceError,
                >(text@),
                Err(e) => string_text(*self, index, depth as int) == Err::<
                    Seq<char>,
                    ProvenanceError,
                >(e),
            },
        decreases depth_left(depth as int),
    {
        broadcast use vstd::std_specs::hash::group_hash_axioms;

        if index == 0 {
            let none: Vec<char> = Vec::new();
            return Ok(string_from_chars(&none));
        }
        if depth >= 32 {
            return Err(ProvenanceError::TooDeep);
        }
        let (prefix, suffix) = match self.strings.get(&index) {
            Some(entry) => (&entry.0, &entry.1),
            None => return Err(ProvenanceError::MissingString(index)),
        };
        let mut out: Vec<char> = Vec::new();
        match prefix {
            Some(prefix) => {
                let list: &Vec<u32> = match self.lists.get(prefix) {
                    Some(list) => list,
                    None => return Err(ProvenanceError::MissingList),
                };
                let mut i: usize = 0;
                while i < list.len()
                    invariant
                        i <= list@.len(),
                        depth < 32,
                        index != 0,
                        self.strings@.contains_key(index),
                        self.strings@[index].0 == Some(*prefix),
                        self.lists@.contains_key(*prefix),
                        self.lists@[*prefix] == *list,
                        list_text(*self, list@, i as int, depth + 1) == Ok::<
                            Seq<char>,
                            ProvenanceError,
                        >(out@),
                    decreases list@.len() - i,
                {
                    match self.string(list[i], depth + 1) {
                        Ok(text) => {
                            let mut part: Vec<char> = to_chars(text.as_str());
                            out.append(&mut part);
                        },
                        Err(e) => {
                            proof {
                                lemma_list_error(
                                    *self,
                                    list@,
                                    i + 1,
                                    list@.len() as int,
                                    depth + 1,
                                );
                            }
                            return Err(e);
                        },
                    }
                    i = i + 1;
                }
            },
            None => {},
        }
        let ghost before = out@;
        let mut tail: Vec<char> = to_chars(suffix.as_str());
        out.append(&mut tail);
        assert(before.len() == 0 ==> out@ =~= suffix@);
        Ok(string_from_chars(&out))
    }

    /// What is told of a module's source file.
    pub fn source(&self, symbols: &[ModuleSymbol], root: &SourceRoot) -> (r: Result<
        Primary,
        ProvenanceError,
    >)
        ensures
            match r {
                Ok(p) => primary_source(*self, symbols@, root@) == Ok::<
                    PrimaryView,
                    ProvenanceError,
                >(p@),
                Err(e) => primary_source(*self, symbols@, root@) == Err::<
                    PrimaryView,
                    ProvenanceError,
                >(e),
            },
    {
        broadcast use vstd::std_specs::hash::group_hash_axioms;

        let mut cpp: bool = false;
        let mut compile: bool = false;
        let mut procedures: bool = false;
        let mut build_info: Option<u32> = None;
        let rustc: Vec<char> = to_chars("rustc");
        let mut i: usize = 0;
        while i < symbols.len()
            invariant
                i <= symbols@.len(),
                rustc@ == "rustc"@,
                (Told { cpp, compile, procedures, build_info }) == told_by(symbols@, i as int),
            decreases symbols@.len() - i,
        {
            match &symbols[i] {
                ModuleSymbol::CompileFlags { c_or_cpp, version } => {
                    compile = true;
                    let version: Vec<char> = to_chars(lower_string(version.as_str()).as_str());
                    cpp = *c_or_cpp && !text_holds(&version, &rustc);
                },
                ModuleSymbol::BuildInfo(id) => {
                    build_info = Some(*id);
                },
                ModuleSymbol::Procedure => {
                    procedures = true;
                },
            }
            i = i + 1;
        }
        if !cpp {
            if compile || !procedures {
                return Ok(Primary::Known(None));
            }
            return Err(ProvenanceError::NoLanguage);
        }
        let id: u32 = match build_info {
            Some(id) => id,
            None => return Ok(Primary::Files),
        };
        let args: &Vec<u32> = match self.arguments.get(&id) {
            Some(args) => args,
            None => return Err(ProvenanceError::MissingBuildInfo),
        };
        if args.len() < 3 {
            return Err(ProvenanceError::FewArguments);
        }
        let dir: String = self.string(args[0], 0)?;
        let name: String = self.string(args[2], 0)?;
        if to_chars(name.as_str()).len() == 0 {
            return Ok(Primary::Files);
        }
        Ok(Primary::Known(root.source(name.as_str(), dir.as_str())))
    }
}

/// What stands behind the last dot; all where there is none.
pub open spec fn after_dot(s: Seq<char>) -> Seq<char>
    decreases s.len(),
{
    if s.len() == 0 || s.last() == '.' {
        Seq::empty()
    } else {
        after_dot(s.drop_last()).push(s.last())
    }
}

fn find_suffix(s: &[char]) -> (r: &[char])
    ensures
        r@ == after_dot(s@),
{
    let n: usize = s.len();
    let mut i: usize = n;
    assert(s@.subrange(0, n as int) =~= s@);
    assert(s@.subrange(n as int, n as int) =~= Seq::empty());
    assert(after_dot(s@) + Seq::<char>::empty() =~= after_dot(s@));
    while i > 0 && s[i - 1] != '.'
        invariant
            i <= n,
            n == s@.len(),
            after_dot(s@.subrange(0, i as int)) + s@.subrange(i as int, n as int) == after_dot(s@),
        decreases i,
    {
        proof {
            let part = s@.subrange(0, i as int);
            assert(part.drop_last() =~= s@.subrange(0, i - 1));
            assert(after_dot(part.drop_last()).push(part.last()) + s@.subrange(
                i as int,
                n as int,
            ) =~= after_dot(part.drop_last()) + s@.subrange(i - 1, n as int));
        }
        i = i - 1;
    }
    assert(Seq::<char>::empty() + s@.subrange(i as int, n as int) =~= s@.subrange(
        i as int,
        n as int,
    ));
    &s[i..n]
}

/// Whether a file is a C or C++ source by its suffix.
pub open spec fn is_source(name: Seq<char>) -> bool {
    let suffix = lower_text(after_dot(name));
    suffix == "c"@ || suffix == "cc"@ || suffix == "cpp"@ || suffix == "cxx"@ || suffix == "c++"@
}

/// Whether a file is a C or C++ source by its suffix.
pub fn is_source_file(name: &str) -> (r: bool)
    ensures
        r == is_source(name@),
{
    let chars: Vec<char> = to_chars(name);
    let suffix: String = lower_string(string_from_chars(find_suffix(&chars)).as_str());
    let suffix: Vec<char> = to_chars(suffix.as_str());
    same_chars(&suffix, &to_chars("c")) || same_chars(&suffix, &to_chars("cc")) || same_chars(
        &suffix,
        &to_chars("cpp"),
    ) || same_chars(&suffix, &to_chars("cxx")) || same_chars(&suffix, &to_chars("c++"))
}

/// The sources among the first `n` files.
pub open spec fn sources_among(files: Seq<String>, n: int) -> Seq<Seq<char>>
    decreases n,
{
    if n <= 0 {
        Seq::empty()
    } else if is_source(files[n - 1]@) {
        sources_among(files, n - 1).push(files[n - 1]@)
    } else {
        sources_among(files, n - 1)
    }
}

/// The texts, encoded.
pub open spec fn all_encoded(texts: Seq<Seq<char>>) -> Seq<Seq<u8>> {
    Seq::new(texts.len(), |i: int| encode_utf8(texts[i]))
}

/// The source file that the files of a line program tell: the only source among them, and nothing
/// where there are more and all of them are out of scope.
pub open spec fn source_among(files: Seq<String>, root: PathView) -> Result<
    Option<Seq<char>>,
    ProvenanceError,
> {
    let sources = sources_among(files, files.len() as int);
    let distinct = sorted_form::<String>(all_encoded(sources));
    if distinct.len() == 1 {
        Ok(source_in(root, sources[0], Seq::empty()))
    } else if sources.len() > 0 && forall|i: int|
        0 <= i < sources.len() ==> source_in(root, #[trigger] sources[i], Seq::empty()) is None {
        Ok(None)
    } else {
        Err(ProvenanceError::NoPrimarySource(distinct.len() as usize))
    }
}

/// Whether all files are out of scope.
fn are_outside(files: &[String], root: &SourceRoot) -> (r: bool)
    ensures
        r == forall|i: int|
            0 <= i < files@.len() ==> source_in(
                root@,
                (#[trigger] files@[i])@,
                Seq::empty(),
            ) is None,
{
    let mut i: usize = 0;
    while i < files.len()
        invariant
            i <= files@.len(),
            forall|k: int|
                0 <= k < i ==> source_in(root@, (#[trigger] files@[k])@, Seq::empty()) is None,
        decreases files@.len() - i,
    {
        assert(""@ =~= Seq::empty()) by {
            reveal_strlit("");
        }
        if root.source(files[i].as_str(), "").is_some() {
            assert(source_in(root@, files@[i as int]@, Seq::empty()) is Some);
            return false;
        }
        i = i + 1;
    }
    true
}

/// Find the source file that the files of a line program tell.
pub fn source_of_files(files: &[String], root: &SourceRoot) -> (r: Result<
    Option<String>,
    ProvenanceError,
>)
    ensures
        match r {
            Ok(Some(path)) => source_among(files@, root@) == Ok::<
                Option<Seq<char>>,
                ProvenanceError,
            >(Some(path@)),
            Ok(None) => source_among(files@, root@) == Ok::<Option<Seq<char>>, ProvenanceError>(
                None,
            ),
            Err(e) => source_among(files@, root@) == Err::<Option<Seq<char>>, ProvenanceError>(e),
        },
{
    let mut sources: Vec<String> = Vec::new();
    let mut i: usize = 0;
    let ghost wanted = sources_among(files@, files@.len() as int);
    while i < files.len()
        invariant
            i <= files@.len(),
            sources@.len() == sources_among(files@, i as int).len(),
            forall|k: int|
                0 <= k < sources@.len() ==> (#[trigger] sources@[k])@ == sources_among(
                    files@,
                    i as int,
                )[k],
        decreases files@.len() - i,
    {
        if is_source_file(files[i].as_str()) {
            sources.push(files[i].clone());
        }
        i = i + 1;
    }
    let places: Vec<usize> = distinct_order(&sources);
    proof {
        assert(keys(sources@) =~= all_encoded(wanted));
        assert(""@ =~= Seq::empty()) by {
            reveal_strlit("");
        }
        if sources@.len() == 0 && places@.len() > 0 {
            assert(places@[0] < sources@.len());
        }
    }
    if places.len() == 1 {
        assert(sources@.len() > 0) by {
            assert(places@[0] < sources@.len());
        }
        return Ok(root.source(sources[0].as_str(), ""));
    }
    if sources.len() > 0 && are_outside(&sources, root) {
        assert forall|k: int| 0 <= k < wanted.len() implies source_in(
            root@,
            #[trigger] wanted[k],
            Seq::empty(),
        ) is None by {
            assert(sources@[k]@ == wanted[k]);
        }
        return Ok(None);
    }
    proof {
        if sources@.len() > 0 {
            let k = choose|k: int|
                0 <= k < sources@.len() && source_in(
                    root@,
                    (#[trigger] sources@[k])@,
                    Seq::empty(),
                ) is Some;
            assert(wanted[k] == sources@[k]@);
        }
    }
    Err(ProvenanceError::NoPrimarySource(places.len()))
}

} // verus!
