//! Command-line inputs.

use vstd::prelude::*;
use crate::text::{
    line_chars, rows, split_at_char, split_chars, string_from_chars, text_lines, to_chars,
    trim_chars, trimmed,
};

verus! {

/// The texts of a list of strings.
pub open spec fn texts(v: Seq<String>) -> Seq<Seq<char>> {
    Seq::new(v.len(), |i: int| v[i]@)
}

/// The response file that an input names: what stands behind a leading `@`.
pub open spec fn response_file(input: Seq<char>) -> Option<Seq<char>> {
    if input.len() > 0 && input[0] == '@' {
        Some(input.drop_first())
    } else {
        None
    }
}

/// Find the response file that an input names.
pub fn find_response_file(input: &str) -> (r: Option<String>)
    ensures
        match r {
            Some(path) => response_file(input@) == Some(path@),
            None => response_file(input@) is None,
        },
{
    let chars: Vec<char> = to_chars(input);
    if chars.len() > 0 && chars[0] == '@' {
        assert(chars@.subrange(1, chars@.len() as int) =~= chars@.drop_first());
        Some(string_from_chars(&chars[1..chars.len()]))
    } else {
        None
    }
}

/// The inputs among the first `n` parts of a line: blank parts are none.
pub open spec fn inputs_in(parts: Seq<Seq<char>>, n: int) -> Seq<Seq<char>>
    decreases n,
{
    if n <= 0 {
        Seq::empty()
    } else if trimmed(parts[n - 1]).len() > 0 {
        inputs_in(parts, n - 1).push(trimmed(parts[n - 1]))
    } else {
        inputs_in(parts, n - 1)
    }
}

/// The inputs of the first `n` lines of a response file, which semicolons separate.
pub open spec fn response_inputs(lines: Seq<Seq<char>>, n: int) -> Seq<Seq<char>>
    decreases n,
{
    if n <= 0 {
        Seq::empty()
    } else {
        let parts = split_at_char(lines[n - 1], ';');
        response_inputs(lines, n - 1) + inputs_in(parts, parts.len() as int)
    }
}

/// The inputs that a response file holds.
pub open spec fn inputs_of(text: Seq<char>) -> Seq<Seq<char>> {
    response_inputs(text_lines(text), text_lines(text).len() as int)
}

/// Append the inputs of a line.
fn push_line(out: &mut Vec<String>, line: &[char])
    ensures
        ({
            let parts = split_at_char(line@, ';');
            texts(final(out)@) == texts(old(out)@) + inputs_in(parts, parts.len() as int)
        }),
{
    let parts: Vec<Vec<char>> = split_chars(line, ';');
    let ghost all = split_at_char(line@, ';');
    let ghost before = texts(out@);
    let mut i: usize = 0;
    assert(texts(out@) =~= before + inputs_in(all, 0));
    while i < parts.len()
        invariant
            i <= parts@.len(),
            all == rows(parts@),
            before == texts(old(out)@),
            texts(out@) == before + inputs_in(all, i as int),
        decreases parts@.len() - i,
    {
        let part: &[char] = trim_chars(&parts[i]);
        assert(all[i as int] == parts@[i as int]@);
        if part.len() > 0 {
            let ghost so_far = texts(out@);
            out.push(string_from_chars(part));
            assert(texts(out@) =~= so_far.push(part@));
            assert(texts(out@) =~= before + inputs_in(all, i + 1));
        }
        i = i + 1;
    }
}

/// Append the inputs that a response file holds.
fn push_response(out: &mut Vec<String>, text: &str)
    ensures
        texts(final(out)@) == texts(old(out)@) + inputs_of(text@),
{
    let chars: Vec<char> = to_chars(text);
    let lines: Vec<Vec<char>> = line_chars(&chars);
    let ghost all = text_lines(text@);
    let ghost before = texts(out@);
    let mut i: usize = 0;
    assert(texts(out@) =~= before + response_inputs(all, 0));
    while i < lines.len()
        invariant
            i <= lines@.len(),
            all == rows(lines@),
            before == texts(old(out)@),
            texts(out@) == before + response_inputs(all, i as int),
        decreases lines@.len() - i,
    {
        assert(all[i as int] == lines@[i as int]@);
        push_line(out, &lines[i]);
        assert(texts(out@) =~= before + response_inputs(all, i + 1));
        i = i + 1;
    }
}

/// What the first `n` inputs stand for, given the text of each response file among them.
pub open spec fn expanded(inputs: Seq<Seq<char>>, read: Seq<Seq<char>>, n: int) -> Seq<Seq<char>>
    decreases n,
{
    if n <= 0 {
        Seq::empty()
    } else if response_file(inputs[n - 1]) is Some {
        expanded(inputs, read, n - 1) + inputs_of(read[n - 1])
    } else {
        expanded(inputs, read, n - 1).push(inputs[n - 1])
    }
}

/// Expand command-line inputs prefixed with `@` as response files. For each such input, `read`
/// holds the text of the file at its place.
pub fn process_rsp(inputs: &[String], read: &[String]) -> (r: Vec<String>)
    requires
        inputs@.len() == read@.len(),
    ensures
        texts(r@) == expanded(texts(inputs@), texts(read@), inputs@.len() as int),
{
    let ghost given = texts(inputs@);
    let ghost files = texts(read@);
    let mut out: Vec<String> = Vec::new();
    let mut i: usize = 0;
    assert(texts(out@) =~= Seq::empty());
    while i < inputs.len()
        invariant
            i <= inputs@.len(),
            inputs@.len() == read@.len(),
            given == texts(inputs@),
            files == texts(read@),
            texts(out@) == expanded(given, files, i as int),
        decreases inputs@.len() - i,
    {
        assert(given[i as int] == inputs@[i as int]@);
        assert(files[i as int] == read@[i as int]@);
        let ghost before = texts(out@);
        match find_response_file(&inputs[i]) {
            Some(_path) => {
                push_response(&mut out, &read[i]);
            },
            None => {
                out.push(string_from_chars(&to_chars(&inputs[i])));
                assert(texts(out@) =~= before.push(inputs@[i as int]@));
            },
        }
        i = i + 1;
    }
    out
}

} // verus!
