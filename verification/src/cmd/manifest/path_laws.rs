//! What the parts of a path do.

use vstd::prelude::*;
use crate::text::split_at_char;
use crate::text_laws::law_pieces_stand_between_separators;
use super::path::{
    after_slash, before_slash, cut_prefix, extended, is_component, is_letter, parsed_path,
    resolved_path, with_part, with_parts, PathView,
};

verus! {

proof fn lemma_first_part(
    absolute: bool,
    components: Seq<Seq<char>>,
    first: Seq<char>,
    rest: Seq<Seq<char>>,
    n: int,
)
    requires
        0 <= n <= rest.len(),
    ensures
        with_parts(absolute, components, seq![first] + rest, n + 1) == with_parts(
            absolute,
            with_part(absolute, components, first),
            rest,
            n,
        ),
    decreases n,
{
    reveal_with_fuel(with_parts, 2);
    let parts = seq![first] + rest;
    if n > 0 {
        lemma_first_part(absolute, components, first, rest, n - 1);
        assert(parts[n] == rest[n - 1]);
    } else {
        assert(parts[0] == first);
    }
}

/// A path is extended part by part.
pub proof fn law_paths_are_extended_in_steps(path: PathView, first: Seq<char>, rest: Seq<char>)
    requires
        !first.contains('/'),
    ensures
        extended(path, first.push('/') + rest) == extended(extended(path, first), rest),
        extended(path, first).prefix == path.prefix,
        extended(path, first).windows == path.windows,
{
    law_pieces_stand_between_separators(first, rest, '/');
    let parts = split_at_char(rest, '/');
    lemma_first_part(path.prefix.len() > 0, path.components, first, parts, parts.len() as int);
    reveal_with_fuel(with_parts, 2);
    assert(seq![first][0] == first);
}

/// A component comes behind the others. Nothing and a single dot change nothing; two dots undo the
/// last component, stay at the root of an absolute path, and lead out of a relative one.
pub proof fn law_parts_of_a_path(path: PathView, part: Seq<char>)
    requires
        is_component(part),
    ensures
        extended(path, part).components == path.components.push(part),
        extended(extended(path, part), ".."@) == path,
        extended(path, "."@) == path,
        extended(path, Seq::empty()) == path,
        path.components.len() == 0 && path.prefix.len() > 0 ==> extended(path, ".."@) == path,
        path.components.len() == 0 && path.prefix.len() == 0 ==> extended(path, ".."@).components
            == seq![".."@],
{
    reveal_strlit(".");
    reveal_strlit("..");
    let none = Seq::<char>::empty();
    reveal_with_fuel(with_parts, 2);
    law_pieces_stand_between_separators(part, none, '/');
    law_pieces_stand_between_separators("."@, none, '/');
    law_pieces_stand_between_separators(".."@, none, '/');
    law_pieces_stand_between_separators(none, none, '/');
    assert(seq![part][0] == part);
    assert(seq!["."@][0] == "."@);
    assert(seq![".."@][0] == ".."@);
    assert(seq![none][0] == none);
    assert(path.components.push(part).drop_last() =~= path.components);
    assert(path.components.push(part).last() == part);
    assert(path.components.push(".."@) =~= seq![".."@] || path.components.len() > 0);
}

proof fn lemma_slash(first: Seq<char>, rest: Seq<char>)
    requires
        !first.contains('/'),
    ensures
        before_slash(first.push('/') + rest) == first,
        after_slash(first.push('/') + rest) == rest,
{
    let whole = first.push('/') + rest;
    let n = first.len() as int;
    assert(whole[n] == '/');
    whole.index_of_first_ensures('/');
    assert(whole.index_of_first('/') == Some(n)) by {
        let at = whole.index_of_first('/')->0;
        if at < n {
            assert(first[at] == '/');
        }
    }
    assert(whole.subrange(0, n) =~= first);
    assert(whole.subrange(n + 1, whole.len() as int) =~= rest);
}

/// A path begins with a share, a drive, a root or nothing of these. The first two are of Windows.
pub proof fn law_prefixes_of_paths(
    host: Seq<char>,
    share: Seq<char>,
    letter: char,
    rest: Seq<char>,
)
    requires
        !host.contains('/'),
        !share.contains('/'),
        is_letter(letter),
    ensures
        cut_prefix(seq!['/', '/'] + host + seq!['/'] + share + seq!['/'] + rest) == (
            seq!['/', '/'] + host + seq!['/'] + share,
            rest,
            true,
        ),
        cut_prefix(seq![letter, ':'] + rest) == (seq![letter, ':'], rest, true),
        rest.len() == 0 || rest[0] != '/' ==> cut_prefix(seq!['/'] + rest) == (
            seq!['/'],
            rest,
            false,
        ),
        (rest.len() == 0 || rest[0] != '/') && !(rest.len() >= 2 && rest[1] == ':' && is_letter(
            rest[0],
        )) ==> cut_prefix(rest) == (Seq::<char>::empty(), rest, false),
{
    reveal_strlit("//");
    reveal_strlit("/");
    assert("//"@ =~= seq!['/', '/']);
    assert("/"@ =~= seq!['/']);
    let shared = seq!['/', '/'] + host + seq!['/'] + share + seq!['/'] + rest;
    let behind = share.push('/') + rest;
    assert(shared.subrange(0, 2) =~= "//"@);
    assert(shared.subrange(2, shared.len() as int) =~= host.push('/') + behind);
    lemma_slash(host, behind);
    lemma_slash(share, rest);
    let drive = seq![letter, ':'] + rest;
    assert(drive[0] == letter);
    assert(drive.subrange(0, 2) =~= seq![letter, ':']);
    assert(drive.subrange(0, 2)[0] == letter);
    assert("//"@[0] == '/' && "//"@[1] == '/');
    assert(drive.subrange(2, drive.len() as int) =~= rest);
    let rooted = seq!['/'] + rest;
    if rest.len() == 0 || rest[0] != '/' {
        if rooted.len() >= 2 {
            assert(rooted.subrange(0, 2)[1] == rest[0]);
        }
        if rest.len() >= 2 {
            assert(rest.subrange(0, 2)[0] == rest[0]);
        }
        assert(rooted.subrange(1, rooted.len() as int) =~= rest);
    }
}

/// A path with a prefix is the same from everywhere. One without is found from where it is seen: going
/// into a directory first makes no difference.
pub proof fn law_absolute_paths_are_the_same_from_everywhere(
    path: Seq<char>,
    base: PathView,
    other: PathView,
)
    ensures
        parsed_path(path).prefix.len() > 0 ==> resolved_path(path, base) == resolved_path(path, other),
        parsed_path(path).prefix.len() == 0 ==> resolved_path(path, base).prefix == base.prefix
            && resolved_path(path, base).windows == base.windows,
{
}

} // verus!
