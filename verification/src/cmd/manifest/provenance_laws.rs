//! What tells the source file of a PDB module.

use vstd::prelude::*;
use crate::text::lower_text;
use super::aliases::holds_text;
use super::path::{source_in, PathView};
use super::provenance::{
    after_dot, is_source, list_text, primary_source, string_text, told_by, BuildInfo, ModuleSymbol,
    PrimaryView, ProvenanceError,
};

verus! {

/// Whether a symbol says that its module is compiled from C or C++. What `rustc` compiled is not.
pub open spec fn says_c(symbol: ModuleSymbol) -> bool {
    symbol matches ModuleSymbol::CompileFlags { c_or_cpp, version } && c_or_cpp && !holds_text(
        lower_text(version@),
        "rustc"@,
    )
}

/// What the symbols of a module tell: whether the last record of a language names C or C++, whether
/// there is one, whether there are procedures, and the last build information.
pub proof fn law_module_symbols_tell(symbols: Seq<ModuleSymbol>, n: int, i: int)
    requires
        0 <= i < n <= symbols.len(),
    ensures
        ({
            let told = told_by(symbols, n);
            let is_last = |kind: spec_fn(ModuleSymbol) -> bool|
                kind(symbols[i]) && forall|k: int| i < k < n ==> !kind(#[trigger] symbols[k]);
            &&& symbols[i] is CompileFlags ==> told.compile
            &&& symbols[i] is Procedure ==> told.procedures
            &&& is_last(|s: ModuleSymbol| s is CompileFlags) ==> told.cpp == says_c(symbols[i])
            &&& is_last(|s: ModuleSymbol| s is BuildInfo) ==> told.build_info == Some(
                symbols[i]->BuildInfo_0,
            )
        }),
    decreases n,
{
    if i < n - 1 {
        law_module_symbols_tell(symbols, n - 1, i);
        assert(symbols[n - 1] == symbols[n - 1]);
    }
}

/// A C or C++ module with build information stands for the third of its arguments below the first, which
/// is the working directory; a module in another language is out of scope.
pub proof fn law_build_information_names_the_source(
    info: BuildInfo,
    symbols: Seq<ModuleSymbol>,
    root: PathView,
    id: u32,
    dir: Seq<char>,
    name: Seq<char>,
)
    requires
        info.arguments@.contains_key(id),
        info.arguments@[id]@.len() >= 3,
        string_text(info, info.arguments@[id]@[0], 0) == Ok::<Seq<char>, ProvenanceError>(dir),
        string_text(info, info.arguments@[id]@[2], 0) == Ok::<Seq<char>, ProvenanceError>(name),
    ensures
        ({
            let told = told_by(symbols, symbols.len() as int);
            &&& told.cpp && told.build_info == Some(id) && name.len() > 0 ==> primary_source(
                info,
                symbols,
                root,
            ) == Ok::<PrimaryView, ProvenanceError>(PrimaryView::Known(source_in(root, name, dir)))
            &&& !told.cpp && told.compile ==> primary_source(info, symbols, root) == Ok::<
                PrimaryView,
                ProvenanceError,
            >(PrimaryView::Known(None))
        }),
{
}

/// The text of a string is that of the strings before it, in their order, and its own behind them.
pub proof fn law_strings_are_put_together(
    info: BuildInfo,
    index: u32,
    prefix: u32,
    a: u32,
    b: u32,
    depth: int,
)
    requires
        index != 0,
        0 <= depth < 32,
        info.strings@.contains_key(index),
        info.strings@[index].0 == Some(prefix),
        info.lists@.contains_key(prefix),
        info.lists@[prefix]@ == seq![a, b],
        string_text(info, a, depth + 1) is Ok,
        string_text(info, b, depth + 1) is Ok,
    ensures
        string_text(info, index, depth) == Ok::<Seq<char>, ProvenanceError>(
            string_text(info, a, depth + 1)->Ok_0 + string_text(info, b, depth + 1)->Ok_0
                + info.strings@[index].1@,
        ),
{
    let list = info.lists@[prefix]@;
    assert(list.len() == 2 && list[0] == a && list[1] == b);
    let first = string_text(info, a, depth + 1)->Ok_0;
    let second = string_text(info, b, depth + 1)->Ok_0;
    assert(list_text(info, list, 0, depth + 1) == Ok::<Seq<char>, ProvenanceError>(Seq::empty()));
    assert(list_text(info, list, 1, depth + 1) == Ok::<Seq<char>, ProvenanceError>(
        Seq::empty() + first,
    ));
    assert(Seq::<char>::empty() + first =~= first);
    assert(list_text(info, list, 2, depth + 1) == Ok::<Seq<char>, ProvenanceError>(
        first + second,
    ));
}

proof fn lemma_after_dot(stem: Seq<char>, suffix: Seq<char>)
    requires
        !suffix.contains('.'),
    ensures
        after_dot(stem + seq!['.'] + suffix) == suffix,
    decreases suffix.len(),
{
    let all = stem + seq!['.'] + suffix;
    if suffix.len() == 0 {
        assert(all.last() == '.');
        assert(suffix =~= Seq::empty());
    } else {
        let rest = suffix.drop_last();
        assert(all.last() == suffix.last());
        assert(suffix.contains(suffix.last()));
        assert(all.drop_last() =~= stem + seq!['.'] + rest);
        assert forall|c: char| rest.contains(c) implies suffix.contains(c) by {
            let k = choose|k: int| 0 <= k < rest.len() && rest[k] == c;
            assert(suffix[k] == c);
        }
        lemma_after_dot(stem, rest);
        assert(rest.push(suffix.last()) =~= suffix);
    }
}

/// A file is a C or C++ source by what stands behind its last dot, however it is written.
pub proof fn law_sources_have_their_suffix(stem: Seq<char>, suffix: Seq<char>)
    requires
        !suffix.contains('.'),
    ensures
        is_source(stem + seq!['.'] + suffix) <==> lower_text(suffix) == "c"@ || lower_text(suffix)
            == "cc"@ || lower_text(suffix) == "cpp"@ || lower_text(suffix) == "cxx"@ || lower_text(
            suffix,
        ) == "c++"@,
{
    lemma_after_dot(stem, suffix);
}

} // verus!
