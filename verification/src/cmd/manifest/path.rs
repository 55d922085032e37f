//! Lexical debug paths, which work independently of the machine that reads them.

use vstd::prelude::*;
use crate::text::{
    begins_with, chars_begin_with, copy_chars, find_char, lower_char, lower_text, rows, same_chars,
    slash, slashed, split_at_char, split_chars, string_from_chars, to_chars,
};

verus! {

/// A path as the components behind its prefix: a drive, a share, the root, or nothing where the path
/// is relative.
pub struct DebugPath {
    pub prefix: Vec<char>,
    pub components: Vec<Vec<char>>,
    pub windows: bool,
}

/// A path as a plain value.
pub struct PathView {
    pub prefix: Seq<char>,
    pub components: Seq<Seq<char>>,
    pub windows: bool,
}

impl View for DebugPath {
    type V = PathView;

    open spec fn view(&self) -> PathView {
        PathView {
            prefix: self.prefix@,
            components: rows(self.components@),
            windows: self.windows,
        }
    }
}

/// What stands before the first slash.
pub open spec fn before_slash(s: Seq<char>) -> Seq<char> {
    match s.index_of_first('/') {
        Some(i) => s.subrange(0, i),
        None => s,
    }
}

/// What stands behind the first slash.
pub open spec fn after_slash(s: Seq<char>) -> Seq<char> {
    match s.index_of_first('/') {
        Some(i) => s.subrange(i + 1, s.len() as int),
        None => Seq::empty(),
    }
}

pub open spec fn is_letter(c: char) -> bool {
    'a' <= c <= 'z' || 'A' <= c <= 'Z'
}

/// The prefix of a path, what stands behind it, and whether it is one of Windows: a share, a drive, a
/// root, or nothing.
pub open spec fn cut_prefix(p: Seq<char>) -> (Seq<char>, Seq<char>, bool) {
    if begins_with(p, "//"@) {
        let rest = p.subrange(2, p.len() as int);
        let behind = after_slash(rest);
        (
            "//"@ + before_slash(rest) + "/"@ + before_slash(behind),
            after_slash(behind),
            true,
        )
    } else if p.len() >= 2 && is_letter(p[0]) && p[1] == ':' {
        (p.subrange(0, 2), p.subrange(2, p.len() as int), true)
    } else if p.len() >= 1 && p[0] == '/' {
        ("/"@, p.subrange(1, p.len() as int), false)
    } else {
        (Seq::empty(), p, false)
    }
}

/// The components with one more part. A part `..` takes the last component away, and is kept only in
/// front of a relative path.
pub open spec fn with_part(
    absolute: bool,
    components: Seq<Seq<char>>,
    part: Seq<char>,
) -> Seq<Seq<char>> {
    if part.len() == 0 || part == "."@ {
        components
    } else if part == ".."@ && components.len() > 0 && components.last() != ".."@ {
        components.drop_last()
    } else if part == ".."@ && absolute {
        components
    } else {
        components.push(part)
    }
}

/// The components with the first `n` parts.
pub open spec fn with_parts(
    absolute: bool,
    components: Seq<Seq<char>>,
    parts: Seq<Seq<char>>,
    n: int,
) -> Seq<Seq<char>>
    decreases n,
{
    if n <= 0 {
        components
    } else {
        with_part(absolute, with_parts(absolute, components, parts, n - 1), parts[n - 1])
    }
}

/// A path extended by a relative one.
pub open spec fn extended(path: PathView, more: Seq<char>) -> PathView {
    let parts = split_at_char(more, '/');
    PathView {
        components: with_parts(
            path.prefix.len() > 0,
            path.components,
            parts,
            parts.len() as int,
        ),
        ..path
    }
}

/// A path as its parts.
pub open spec fn parsed_path(path: Seq<char>) -> PathView {
    let (prefix, rest, windows) = cut_prefix(slashed(path));
    extended(PathView { prefix, components: Seq::empty(), windows }, rest)
}

/// A path seen from a directory.
pub open spec fn resolved_path(path: Seq<char>, base: PathView) -> PathView {
    let own = parsed_path(path);
    if own.prefix.len() > 0 {
        own
    } else {
        extended(base, slashed(path))
    }
}

/// Cut a text at its first slash.
fn cut_slash(s: &[char]) -> (r: (&[char], &[char]))
    ensures
        r.0@ == before_slash(s@),
        r.1@ == after_slash(s@),
{
    assert(s.len() <= usize::MAX);
    match find_char(s, '/') {
        Some(i) => (&s[0..i], &s[i + 1..s.len()]),
        None => {
            assert(s@.subrange(s@.len() as int, s@.len() as int) =~= Seq::empty());
            (s, &s[s.len()..s.len()])
        },
    }
}

impl DebugPath {
    /// Extend the path by a relative one.
    pub fn extend(&mut self, path: &[char])
        ensures
            final(self)@ == extended(old(self)@, path@),
    {
        let ghost before = self@;
        let parts: Vec<Vec<char>> = split_chars(path, '/');
        let dots: Vec<char> = to_chars("..");
        let dot: Vec<char> = to_chars(".");
        let absolute: bool = self.prefix.len() > 0;
        let mut i: usize = 0;
        while i < parts.len()
            invariant
                i <= parts@.len(),
                before == old(self)@,
                dots@ == ".."@,
                dot@ == "."@,
                absolute == (before.prefix.len() > 0),
                self.prefix@ == before.prefix,
                self.windows == before.windows,
                rows(parts@) == split_at_char(path@, '/'),
                rows(self.components@) == with_parts(
                    absolute,
                    before.components,
                    rows(parts@),
                    i as int,
                ),
            decreases parts@.len() - i,
        {
            let ghost so_far = rows(self.components@);
            let ghost all = self.components@;
            let part: &Vec<char> = &parts[i];
            assert(rows(parts@)[i as int] == part@);
            let n: usize = self.components.len();
            if part.len() == 0 || same_chars(part, &dot) {
            } else if same_chars(part, &dots) && n > 0 && !same_chars(
                &self.components[n - 1],
                &dots,
            ) {
                let _last: Option<Vec<char>> = self.components.pop();
                assert(rows(self.components@) =~= so_far.drop_last());
            } else if same_chars(part, &dots) && absolute {
            } else {
                self.components.push(copy_chars(part));
                assert(rows(self.components@) =~= so_far.push(part@));
            }
            i = i + 1;
        }
    }

    /// Take a path apart.
    pub fn parse(path: &str) -> (r: Self)
        ensures
            r@ == parsed_path(path@),
    {
        let path: Vec<char> = slash(&to_chars(path));
        let n: usize = path.len();
        let mut prefix: Vec<char> = Vec::new();
        let mut windows: bool = false;
        let mut rest: &[char] = &path;
        if chars_begin_with(&path, &to_chars("//")) {
            proof {
                reveal_strlit("//");
            }
            let (server, behind) = cut_slash(&path[2..n]);
            let (share, tail) = cut_slash(behind);
            let mut server: Vec<char> = copy_chars(server);
            let mut slash: Vec<char> = to_chars("/");
            let mut share: Vec<char> = copy_chars(share);
            prefix = to_chars("//");
            prefix.append(&mut server);
            prefix.append(&mut slash);
            prefix.append(&mut share);
            windows = true;
            rest = tail;
        } else if n >= 2 && ('a' <= path[0] && path[0] <= 'z' || 'A' <= path[0] && path[0] <= 'Z')
            && path[1] == ':' {
            prefix = copy_chars(&path[0..2]);
            windows = true;
            rest = &path[2..n];
        } else if n >= 1 && path[0] == '/' {
            prefix = to_chars("/");
            rest = &path[1..n];
        }
        let components: Vec<Vec<char>> = Vec::new();
        assert(rows(components@) =~= Seq::empty());
        let mut result: DebugPath = DebugPath { prefix, components, windows };
        result.extend(rest);
        result
    }

    /// See a path from a directory.
    pub fn resolve(path: &str, base: &Self) -> (r: Self)
        ensures
            r@ == resolved_path(path@, base@),
    {
        let own: DebugPath = DebugPath::parse(path);
        if own.prefix.len() > 0 {
            return own;
        }
        let mut result: DebugPath = base.copy();
        result.extend(&slash(&to_chars(path)));
        result
    }

    fn copy(&self) -> (r: Self)
        ensures
            r@ == self@,
    {
        let mut components: Vec<Vec<char>> = Vec::new();
        let mut i: usize = 0;
        while i < self.components.len()
            invariant
                i <= self.components@.len(),
                rows(components@) == rows(self.components@).subrange(0, i as int),
            decreases self.components@.len() - i,
        {
            let ghost before = rows(components@);
            components.push(copy_chars(&self.components[i]));
            assert(rows(components@) =~= before.push(self.components@[i as int]@));
            assert(rows(components@) =~= rows(self.components@).subrange(0, i + 1));
            i = i + 1;
        }
        assert(rows(components@) =~= rows(self.components@));
        DebugPath { prefix: copy_chars(&self.prefix), components, windows: self.windows }
    }
}

/// Whether two names are the same: Windows does not tell the case of ASCII letters apart.
pub open spec fn names_match(windows: bool, a: Seq<char>, b: Seq<char>) -> bool {
    if windows {
        lower_text(a) == lower_text(b)
    } else {
        a == b
    }
}

fn match_names(windows: bool, a: &[char], b: &[char]) -> (r: bool)
    ensures
        r == names_match(windows, a@, b@),
{
    if !windows {
        return same_chars(a, b);
    }
    if a.len() != b.len() {
        assert(lower_text(a@).len() != lower_text(b@).len());
        return false;
    }
    let mut i: usize = 0;
    while i < a.len()
        invariant
            i <= a@.len(),
            a@.len() == b@.len(),
            forall|k: int| 0 <= k < i ==> lower_text(a@)[k] == lower_text(b@)[k],
        decreases a@.len() - i,
    {
        let x: char = lower(a[i]);
        let y: char = lower(b[i]);
        if x != y {
            assert(lower_text(a@)[i as int] != lower_text(b@)[i as int]);
            return false;
        }
        i = i + 1;
    }
    assert(lower_text(a@) =~= lower_text(b@));
    true
}

fn lower(c: char) -> (r: char)
    ensures
        r == lower_char(c),
{
    if 'A' <= c && c <= 'Z' {
        ((c as u8) + 32) as char
    } else {
        c
    }
}

/// Parts with slashes between them.
pub open spec fn joined(parts: Seq<Seq<char>>) -> Seq<char>
    decreases parts.len(),
{
    if parts.len() == 0 {
        Seq::empty()
    } else if parts.len() == 1 {
        parts[0]
    } else {
        joined(parts.drop_last()) + "/"@ + parts.last()
    }
}

/// Whether a path lies below a root.
pub open spec fn is_below(source: PathView, root: PathView) -> bool {
    &&& names_match(root.windows, source.prefix, root.prefix)
    &&& source.components.len() > root.components.len()
    &&& forall|i: int|
        0 <= i < root.components.len() ==> names_match(
            root.windows,
            #[trigger] source.components[i],
            root.components[i],
        )
}

/// The path below a root that a source file has, whose name is seen from its compilation directory.
pub open spec fn source_in(root: PathView, name: Seq<char>, comp_dir: Seq<char>) -> Option<
    Seq<char>,
> {
    let source = resolved_path(name, resolved_path(comp_dir, root));
    if name.len() == 0 || !is_below(source, root) {
        None
    } else {
        Some(
            joined(
                source.components.subrange(
                    root.components.len() as int,
                    source.components.len() as int,
                ),
            ),
        )
    }
}

/// The root of the source files whose functions are named by their file.
pub struct SourceRoot(pub DebugPath);

/// The root is not absolute.
#[derive(Clone, Copy, Debug, PartialEq, Eq, Structural)]
pub struct RelativeRoot;

impl View for SourceRoot {
    type V = PathView;

    open spec fn view(&self) -> PathView {
        self.0@
    }
}

/// Join parts behind the first `from` with slashes between them.
fn join(parts: &[Vec<char>], from: usize) -> (r: String)
    requires
        from < parts@.len(),
    ensures
        r@ == joined(rows(parts@).subrange(from as int, parts@.len() as int)),
{
    let ghost all = rows(parts@);
    let mut out: Vec<char> = copy_chars(&parts[from]);
    let mut i: usize = from + 1;
    assert(all.subrange(from as int, from + 1) =~= seq![all[from as int]]);
    while i < parts.len()
        invariant
            from < i <= parts@.len(),
            all == rows(parts@),
            out@ == joined(all.subrange(from as int, i as int)),
        decreases parts@.len() - i,
    {
        let ghost so_far = all.subrange(from as int, i as int);
        let ghost more = all.subrange(from as int, i + 1);
        assert(more.drop_last() =~= so_far);
        let mut slash: Vec<char> = to_chars("/");
        let mut part: Vec<char> = copy_chars(&parts[i]);
        out.append(&mut slash);
        out.append(&mut part);
        assert(out@ =~= joined(so_far) + "/"@ + all[i as int]);
        i = i + 1;
    }
    string_from_chars(&out)
}

impl SourceRoot {
    /// The root at an absolute path.
    pub fn new(root: &str) -> (r: Result<Self, RelativeRoot>)
        ensures
            match r {
                Ok(s) => s@ == parsed_path(root@) && is_root(s@),
                Err(_) => parsed_path(root@).prefix.len() == 0,
            },
    {
        let ghost root_text = root@;
        let root: DebugPath = DebugPath::parse(root);
        if root.prefix.len() == 0 {
            return Err(RelativeRoot);
        }
        proof {
            lemma_parsed_clean(root_text);
        }
        Ok(SourceRoot(root))
    }

    /// The path below the root that a source file has, whose name is seen from its compilation
    /// directory; nothing where it lies elsewhere.
    pub fn source(&self, name: &str, comp_dir: &str) -> (r: Option<String>)
        ensures
            match r {
                Some(s) => source_in(self@, name@, comp_dir@) == Some(s@),
                None => source_in(self@, name@, comp_dir@) is None,
            },
    {
        let root: &DebugPath = &self.0;
        let dir: DebugPath = DebugPath::resolve(comp_dir, root);
        let source: DebugPath = DebugPath::resolve(name, &dir);
        let n: usize = root.components.len();
        if to_chars(name).len() == 0 || !match_names(root.windows, &source.prefix, &root.prefix)
            || source.components.len() <= n {
            return None;
        }
        let ghost found = source@.components;
        let ghost wanted = root@.components;
        let mut i: usize = 0;
        while i < n
            invariant
                i <= n,
                n == root.components@.len(),
                n < source.components@.len(),
                root@ == self@,
                source@ == resolved_path(name@, resolved_path(comp_dir@, self@)),
                found == rows(source.components@),
                wanted == rows(root.components@),
                forall|k: int|
                    0 <= k < i ==> names_match(root.windows, #[trigger] found[k], wanted[k]),
            decreases n - i,
        {
            assert(found[i as int] == source.components@[i as int]@);
            assert(wanted[i as int] == root.components@[i as int]@);
            if !match_names(root.windows, &source.components[i], &root.components[i]) {
                assert(!names_match(root.windows, source@.components[i as int], wanted[i as int]));
                return None;
            }
            i = i + 1;
        }
        Some(join(&source.components, n))
    }
}

/// Whether a text is a component of an absolute path: not empty, no dots, and without slashes.
pub open spec fn is_component(part: Seq<char>) -> bool {
    part.len() > 0 && part != "."@ && part != ".."@ && !part.contains('/') && !part.contains('\\')
}

pub open spec fn are_components(parts: Seq<Seq<char>>) -> bool {
    forall|i: int| 0 <= i < parts.len() ==> is_component(#[trigger] parts[i])
}

/// Whether a path can be a root: it is absolute.
pub open spec fn is_root(path: PathView) -> bool {
    path.prefix.len() > 0 && are_components(path.components)
}

proof fn lemma_split_parts(s: Seq<char>)
    requires
        !s.contains('\\'),
    ensures
        forall|i: int|
            0 <= i < split_at_char(s, '/').len() ==> !(#[trigger] split_at_char(s, '/')[i]).contains(
                '/',
            ) && !split_at_char(s, '/')[i].contains('\\'),
    decreases s.len(),
{
    s.index_of_first_ensures('/');
    match s.index_of_first('/') {
        Some(i) => {
            let head = s.subrange(0, i);
            let tail = s.subrange(i + 1, s.len() as int);
            assert forall|k: int| 0 <= k < tail.len() implies tail[k] != '\\' by {
                assert(s[i + 1 + k] != '\\') by {
                    assert(!s.contains('\\'));
                }
            }
            assert(!tail.contains('\\'));
            lemma_split_parts(tail);
            assert forall|k: int| 0 <= k < head.len() implies head[k] != '/' && head[k] != '\\' by {
                assert(s[k] != '/');
                assert(!s.contains('\\'));
                assert(s[k] != '\\');
            }
            assert(split_at_char(s, '/') =~= seq![head] + split_at_char(tail, '/'));
            assert forall|k: int| 0 <= k < split_at_char(s, '/').len() implies !(
            #[trigger] split_at_char(s, '/')[k]).contains('/') && !split_at_char(
                s,
                '/',
            )[k].contains('\\') by {
                if k > 0 {
                    assert(split_at_char(s, '/')[k] == split_at_char(tail, '/')[k - 1]);
                }
            }
        },
        None => {},
    }
}

proof fn lemma_with_parts_clean(
    components: Seq<Seq<char>>,
    parts: Seq<Seq<char>>,
    n: int,
)
    requires
        0 <= n <= parts.len(),
        are_components(components),
        forall|i: int|
            0 <= i < parts.len() ==> !(#[trigger] parts[i]).contains('/') && !parts[i].contains(
                '\\',
            ),
    ensures
        are_components(with_parts(true, components, parts, n)),
    decreases n,
{
    if n > 0 {
        lemma_with_parts_clean(components, parts, n - 1);
    }
}

proof fn lemma_extended_clean(path: PathView, more: Seq<char>)
    requires
        is_root(path),
        !more.contains('\\'),
    ensures
        is_root(extended(path, more)),
{
    lemma_split_parts(more);
    let parts = split_at_char(more, '/');
    lemma_with_parts_clean(path.components, parts, parts.len() as int);
}

proof fn lemma_slashed(s: Seq<char>)
    ensures
        !slashed(s).contains('\\'),
{
    assert forall|i: int| 0 <= i < slashed(s).len() implies slashed(s)[i] != '\\' by {}
}

proof fn lemma_part_clean(s: Seq<char>, from: int, to: int)
    requires
        0 <= from <= to <= s.len(),
        !s.contains('\\'),
    ensures
        !s.subrange(from, to).contains('\\'),
{
    let part = s.subrange(from, to);
    assert forall|i: int| 0 <= i < part.len() implies part[i] != '\\' by {
        assert(s[from + i] != '\\') by {
            assert(!s.contains('\\'));
        }
    }
}

proof fn lemma_after_slash_clean(s: Seq<char>)
    requires
        !s.contains('\\'),
    ensures
        !after_slash(s).contains('\\'),
{
    s.index_of_first_ensures('/');
    match s.index_of_first('/') {
        Some(i) => lemma_part_clean(s, i + 1, s.len() as int),
        None => {},
    }
}

proof fn lemma_parsed_clean(path: Seq<char>)
    ensures
        parsed_path(path).prefix.len() > 0 ==> is_root(parsed_path(path)),
{
    reveal_strlit("//");
    let p = slashed(path);
    lemma_slashed(path);
    let n = p.len() as int;
    let (prefix, rest, windows) = cut_prefix(p);
    if begins_with(p, "//"@) {
        lemma_part_clean(p, 2, n);
        lemma_after_slash_clean(p.subrange(2, n));
        lemma_after_slash_clean(after_slash(p.subrange(2, n)));
    } else if n >= 2 && is_letter(p[0]) && p[1] == ':' {
        lemma_part_clean(p, 2, n);
    } else if n >= 1 && p[0] == '/' {
        lemma_part_clean(p, 1, n);
    }
    if prefix.len() > 0 {
        lemma_extended_clean(PathView { prefix, components: Seq::empty(), windows }, rest);
    }
}

proof fn lemma_resolved_clean(path: Seq<char>, base: PathView)
    requires
        is_root(base),
    ensures
        is_root(resolved_path(path, base)),
{
    lemma_parsed_clean(path);
    lemma_slashed(path);
    lemma_extended_clean(base, slashed(path));
}

proof fn lemma_split_joined_pair(a: Seq<char>, b: Seq<char>)
    requires
        !b.contains('/'),
    ensures
        split_at_char(a + "/"@ + b, '/') == split_at_char(a, '/').push(b),
    decreases a.len(),
{
    reveal_strlit("/");
    let s = a + "/"@ + b;
    let n = a.len() as int;
    assert(s[n] == '/');
    s.index_of_first_ensures('/');
    a.index_of_first_ensures('/');
    b.index_of_first_ensures('/');
    assert(s.contains('/'));
    let i = s.index_of_first('/')->Some_0;
    let rest = s.subrange(i + 1, s.len() as int);
    assert(split_at_char(s, '/') == seq![s.subrange(0, i)] + split_at_char(rest, '/'));
    match a.index_of_first('/') {
        Some(k) => {
            assert(s[k] == '/');
            assert forall|j: int| 0 <= j < k implies s[j] != '/' by {
                assert(a[j] != '/');
            }
            assert(i == k);
            let tail = a.subrange(k + 1, n);
            assert(rest =~= tail + "/"@ + b);
            lemma_split_joined_pair(tail, b);
            assert(s.subrange(0, i) =~= a.subrange(0, k));
            assert(seq![a.subrange(0, k)] + split_at_char(tail, '/').push(b) =~= (seq![
                a.subrange(0, k),
            ] + split_at_char(tail, '/')).push(b));
        },
        None => {
            assert forall|j: int| 0 <= j < n implies s[j] != '/' by {
                assert(a[j] != '/') by {
                    assert(!a.contains('/'));
                }
            }
            assert(i == n);
            assert(rest =~= b);
            assert(split_at_char(b, '/') == seq![b]);
            assert(split_at_char(a, '/') == seq![a]);
            assert(s.subrange(0, i) =~= a);
            assert(seq![a] + seq![b] =~= seq![a].push(b));
        },
    }
}

proof fn lemma_split_joined(parts: Seq<Seq<char>>)
    requires
        parts.len() > 0,
        are_components(parts),
    ensures
        split_at_char(joined(parts), '/') == parts,
        joined(parts).len() > 0,
        !joined(parts).contains('\\'),
    decreases parts.len(),
{
    reveal_strlit("/");
    if parts.len() == 1 {
        parts[0].index_of_first_ensures('/');
        assert(is_component(parts[0]));
        assert(parts =~= seq![parts[0]]);
    } else {
        let head = parts.drop_last();
        assert forall|i: int| 0 <= i < head.len() implies is_component(#[trigger] head[i]) by {
            assert(is_component(parts[i]));
        }
        lemma_split_joined(head);
        assert(is_component(parts.last()));
        lemma_split_joined_pair(joined(head), parts.last());
        assert(head.push(parts.last()) =~= parts);
        let s = joined(parts);
        let a = joined(head);
        assert forall|i: int| 0 <= i < s.len() implies s[i] != '\\' by {
            if i < a.len() {
                assert(!a.contains('\\'));
                assert(s[i] == a[i]);
            } else if i > a.len() {
                assert(!parts.last().contains('\\'));
                assert(s[i] == parts.last()[i - a.len() - 1]);
            }
        }
    }
}

proof fn lemma_with_components(
    components: Seq<Seq<char>>,
    parts: Seq<Seq<char>>,
    n: int,
)
    requires
        0 <= n <= parts.len(),
        are_components(parts),
    ensures
        with_parts(true, components, parts, n) == components + parts.subrange(0, n),
    decreases n,
{
    if n > 0 {
        lemma_with_components(components, parts, n - 1);
        assert(is_component(parts[n - 1]));
        assert(components + parts.subrange(0, n) =~= (components + parts.subrange(0, n - 1)).push(
            parts[n - 1],
        ));
    } else {
        assert(components + parts.subrange(0, 0) =~= components);
    }
}

/// A path below the root stands for itself: looked up from the root it gives the same path again,
/// unless it would be taken for an absolute one (as `c:/a.cpp` is).
pub proof fn law_source_path_stands_for_itself(
    root: PathView,
    name: Seq<char>,
    comp_dir: Seq<char>,
    path: Seq<char>,
)
    requires
        is_root(root),
        source_in(root, name, comp_dir) == Some(path),
        parsed_path(path).prefix.len() == 0,
    ensures
        source_in(root, path, Seq::empty()) == Some(path),
{
    let source = resolved_path(name, resolved_path(comp_dir, root));
    lemma_resolved_clean(comp_dir, root);
    lemma_resolved_clean(name, resolved_path(comp_dir, root));
    let n = root.components.len() as int;
    let tail = source.components.subrange(n, source.components.len() as int);
    assert forall|i: int| 0 <= i < tail.len() implies is_component(#[trigger] tail[i]) by {
        assert(is_component(source.components[n + i]));
    }
    lemma_split_joined(tail);

    let none = Seq::<char>::empty();
    reveal_strlit("//");
    assert(slashed(none) =~= none);
    none.index_of_first_ensures('/');
    assert(split_at_char(none, '/') =~= seq![none]);
    reveal_with_fuel(with_parts, 2);
    assert(resolved_path(none, root) == root);

    assert forall|i: int| 0 <= i < path.len() implies path[i] != '\\' by {
        assert(!path.contains('\\'));
    }
    assert(slashed(path) =~= path);
    lemma_with_components(root.components, tail, tail.len() as int);
    assert(tail.subrange(0, tail.len() as int) =~= tail);
    let again = resolved_path(path, root);
    assert(again.components == root.components + tail);
    assert(again.components.subrange(n, again.components.len() as int) =~= tail);
    assert forall|i: int| 0 <= i < n implies names_match(
        root.windows,
        #[trigger] again.components[i],
        root.components[i],
    ) by {}
}

} // verus!
