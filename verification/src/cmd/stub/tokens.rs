//! The tokens of a module definition, and what stands between them.

use vstd::prelude::*;
use crate::text::{char_is_space, is_space, string_from_chars, to_chars};

verus! {

/// The characters that end a word.
pub open spec fn ends_word(c: char) -> bool {
    c == '=' || c == ',' || c == ';' || c == '\r' || c == '\n' || c == ' ' || c == '\t' || c
        == '\x0B'
}

/// Whether a character stands for itself.
pub open spec fn is_mark(c: char) -> bool {
    c == '\0' || c == '=' || c == ','
}

/// Whether a character ends the piece that begins with `first`: a comment goes to the end of its
/// line, a quoted name to its second quote, and a word to a blank or a mark.
pub open spec fn ends_piece(first: char, c: char) -> bool {
    if first == ';' {
        c == '\n'
    } else if first == '"' {
        c == '"'
    } else {
        ends_word(c)
    }
}

/// Where the first piece of a text ends, at `i` or later; the length of the text where nothing ends
/// it.
pub open spec fn piece_stop(text: Seq<char>, i: int) -> int
    decreases text.len() - i,
{
    if i >= text.len() {
        text.len() as int
    } else if ends_piece(text[0], text[i]) {
        i
    } else {
        piece_stop(text, i + 1)
    }
}

/// How long the first piece of a text is, with the character that ends it.
pub open spec fn piece_len(text: Seq<char>) -> int {
    if is_mark(text[0]) {
        1
    } else if piece_stop(text, 1) < text.len() {
        piece_stop(text, 1) + 1
    } else {
        text.len() as int
    }
}

/// Whether the first piece of a text is no token: a comment, blanks, or the last character of the
/// text where a word would begin.
pub open spec fn is_skipped(text: Seq<char>) -> bool {
    let first = text[0];
    ||| first == ';'
    ||| !is_mark(first) && first != '"' && (text.len() == 1 || forall|k: int|
        0 <= k < piece_stop(text, 1) ==> is_space(#[trigger] text[k]))
}

/// The tokens of a text, each with the character that ends it.
pub open spec fn tokens(text: Seq<char>) -> Seq<Seq<char>>
    decreases text.len(),
{
    if text.len() == 0 {
        Seq::empty()
    } else {
        proof {
            lemma_piece_len(text);
        }
        let n = piece_len(text);
        let rest = tokens(text.subrange(n, text.len() as int));
        if is_skipped(text) {
            rest
        } else {
            seq![text.subrange(0, n)] + rest
        }
    }
}

/// A text without what stands between its tokens.
pub open spec fn shortened(text: Seq<char>) -> Seq<char>
    decreases text.len(),
{
    if text.len() == 0 {
        Seq::empty()
    } else {
        proof {
            lemma_piece_len(text);
        }
        let n = piece_len(text);
        let rest = shortened(text.subrange(n, text.len() as int));
        if is_skipped(text) {
            rest
        } else {
            text.subrange(0, n) + rest
        }
    }
}

/// Whether nothing stands between the tokens of a text.
pub open spec fn is_plain(text: Seq<char>) -> bool
    decreases text.len(),
{
    if text.len() == 0 {
        true
    } else {
        proof {
            lemma_piece_len(text);
        }
        !is_skipped(text) && is_plain(text.subrange(piece_len(text), text.len() as int))
    }
}

proof fn lemma_piece_stop(text: Seq<char>, i: int)
    requires
        0 <= i <= text.len(),
    ensures
        ({
            let stop = piece_stop(text, i);
            &&& i <= stop <= text.len()
            &&& stop < text.len() ==> ends_piece(text[0], text[stop])
            &&& forall|k: int| i <= k < stop ==> !ends_piece(text[0], #[trigger] text[k])
        }),
    decreases text.len() - i,
{
    if i < text.len() && !ends_piece(text[0], text[i]) {
        lemma_piece_stop(text, i + 1);
    }
}

pub proof fn lemma_piece_len(text: Seq<char>)
    requires
        text.len() > 0,
    ensures
        0 < piece_len(text) <= text.len(),
{
    lemma_piece_stop(text, 1);
}

proof fn lemma_same_stop(text: Seq<char>, stop: int, i: int)
    requires
        0 < i <= stop < text.len(),
        ends_piece(text[0], text[stop]),
        forall|k: int| i <= k < stop ==> !ends_piece(text[0], #[trigger] text[k]),
    ensures
        piece_stop(text, i) == stop,
    decreases stop - i,
{
    if i < stop {
        lemma_same_stop(text, stop, i + 1);
    }
}

/// A token is told by its own characters, whatever comes behind it.
proof fn lemma_same_piece(text: Seq<char>, rest: Seq<char>)
    requires
        text.len() > 0,
        piece_len(text) == text.len() ==> rest.len() == 0,
        !is_skipped(text),
    ensures
        ({
            let n = piece_len(text);
            let other = text.subrange(0, n) + rest;
            &&& 0 < n <= text.len()
            &&& piece_len(other) == n
            &&& !is_skipped(other)
            &&& other.subrange(0, n) == text.subrange(0, n)
            &&& other.subrange(n, other.len() as int) == rest
        }),
{
    let n = piece_len(text);
    let other = text.subrange(0, n) + rest;
    lemma_piece_len(text);
    lemma_piece_stop(text, 1);
    assert(other.subrange(0, n) =~= text.subrange(0, n));
    assert(other.subrange(n, other.len() as int) =~= rest);
    if n == text.len() {
        assert(other =~= text);
    } else if !is_mark(text[0]) {
        let stop = piece_stop(text, 1);
        assert(forall|k: int| 0 <= k < n ==> other[k] == text[k]);
        lemma_same_stop(other, stop, 1);
        if text[0] != '"' && text[0] != ';' {
            let k = choose|k: int| 0 <= k < stop && !is_space(#[trigger] text[k]);
            assert(!is_space(other[k]));
        }
    }
}

/// Without what stands between its tokens, a text has the same tokens, and nothing between them.
pub proof fn law_shortening_keeps_the_tokens(text: Seq<char>)
    requires
        !text.contains('='),
    ensures
        tokens(shortened(text)) == tokens(text),
        is_plain(shortened(text)),
{
    lemma_shortened(text);
}

proof fn lemma_shortened(text: Seq<char>)
    ensures
        tokens(shortened(text)) == tokens(text),
        is_plain(shortened(text)),
    decreases text.len(),
{
    if text.len() > 0 {
        lemma_piece_len(text);
        let n = piece_len(text);
        let behind = text.subrange(n, text.len() as int);
        lemma_shortened(behind);
        if !is_skipped(text) {
            lemma_same_piece(text, shortened(behind));
        }
    }
}

/// Take out what stands between the tokens of a module definition.
pub fn shorten(text: &str) -> (r: String)
    ensures
        r@ == shortened(text@),
        is_plain(r@),
{
    let chars: Vec<char> = to_chars(text);
    let mut out: Vec<char> = Vec::new();
    let mut i: usize = 0;
    assert(chars@.subrange(0, chars@.len() as int) =~= chars@);
    while i < chars.len()
        invariant
            i <= chars@.len(),
            shortened(chars@) == out@ + shortened(chars@.subrange(i as int, chars@.len() as int)),
        decreases chars@.len() - i,
    {
        let ghost behind = chars@.subrange(i as int, chars@.len() as int);
        let (end, skipped) = next_piece(&chars, i);
        let ghost n = piece_len(behind);
        assert(behind.subrange(n, behind.len() as int) =~= chars@.subrange(
            end as int,
            chars@.len() as int,
        ));
        if !skipped {
            let ghost before = out@;
            let mut k: usize = i;
            while k < end
                invariant
                    i <= k <= end <= chars@.len(),
                    out@ == before + chars@.subrange(i as int, k as int),
                decreases end - k,
            {
                out.push(chars[k]);
                k = k + 1;
                assert(out@ =~= before + chars@.subrange(i as int, k as int));
            }
            assert(behind.subrange(0, n) =~= chars@.subrange(i as int, end as int));
            assert(out@ + shortened(chars@.subrange(end as int, chars@.len() as int)) =~= before + (
            behind.subrange(0, n) + shortened(chars@.subrange(end as int, chars@.len() as int))));
        }
        i = end;
        assert(shortened(chars@) == out@ + shortened(
            chars@.subrange(i as int, chars@.len() as int),
        ));
    }
    assert(out@ + shortened(chars@.subrange(i as int, chars@.len() as int)) =~= out@);
    proof {
        lemma_shortened(text@);
    }
    string_from_chars(&out)
}

/// Where the piece at `i` ends, and whether it is no token.
fn next_piece(chars: &[char], i: usize) -> (r: (usize, bool))
    requires
        i < chars@.len(),
    ensures
        ({
            let behind = chars@.subrange(i as int, chars@.len() as int);
            &&& i < r.0 <= chars@.len()
            &&& r.0 == i + piece_len(behind)
            &&& r.1 == is_skipped(behind)
        }),
{
    let ghost behind = chars@.subrange(i as int, chars@.len() as int);
    let first: char = chars[i];
    if first == '\0' || first == '=' || first == ',' {
        return (i + 1, false);
    }
    assert(behind[0] == first);
    let mut blank: bool = char_is_space(first);
    let mut at: usize = i + 1;
    while at < chars.len() && !piece_ends(first, chars[at])
        invariant
            i < at <= chars@.len(),
            behind == chars@.subrange(i as int, chars@.len() as int),
            first == behind[0],
            piece_stop(behind, 1) == piece_stop(behind, at - i),
            blank == (forall|k: int| 0 <= k < at - i ==> is_space(#[trigger] behind[k])),
        decreases chars@.len() - at,
    {
        assert(behind[at - i] == chars@[at as int]);
        if !char_is_space(chars[at]) {
            blank = false;
        }
        at = at + 1;
    }
    if at < chars.len() {
        assert(behind[at - i] == chars@[at as int]);
    }
    let alone: bool = i + 1 == chars.len();
    let skipped: bool = first == ';' || first != '"' && (alone || blank);
    if at < chars.len() {
        (at + 1, skipped)
    } else {
        (at, skipped)
    }
}

fn piece_ends(first: char, c: char) -> (r: bool)
    ensures
        r == ends_piece(first, c),
{
    if first == ';' {
        c == '\n'
    } else if first == '"' {
        c == '"'
    } else {
        c == '=' || c == ',' || c == ';' || c == '\r' || c == '\n' || c == ' ' || c == '\t' || c
            == '\x0B'
    }
}

} // verus!
