//! What command-line inputs stand for.

use vstd::prelude::*;
use crate::cmd::def::listing::lemma_contained;
use crate::text::{split_at_char, text_lines, trimmed};
use super::file::{expanded, inputs_in, inputs_of, response_file, response_inputs};

verus! {

/// Whether one of the parts of a line is an input: parts are trimmed, and blank ones are none.
pub open spec fn is_in_parts(parts: Seq<Seq<char>>, n: int, input: Seq<char>) -> bool {
    input.len() > 0 && exists|j: int| 0 <= j < n && trimmed(#[trigger] parts[j]) == input
}

proof fn lemma_parts(parts: Seq<Seq<char>>, n: int, input: Seq<char>)
    requires
        0 <= n <= parts.len(),
    ensures
        inputs_in(parts, n).contains(input) <==> is_in_parts(parts, n, input),
    decreases n,
{
    if n > 0 {
        let before = inputs_in(parts, n - 1);
        let all = inputs_in(parts, n);
        lemma_parts(parts, n - 1, input);
        if all.contains(input) {
            let k = choose|k: int| 0 <= k < all.len() && all[k] == input;
            if k < before.len() {
                assert(before[k] == input);
            } else {
                assert(trimmed(parts[n - 1]) == input);
            }
        }
        if before.contains(input) {
            let k = choose|k: int| 0 <= k < before.len() && before[k] == input;
            assert(all[k] == input);
        }
        if trimmed(parts[n - 1]) == input && input.len() > 0 {
            assert(all[before.len() as int] == input);
        }
    }
}

/// Whether a response file holds an input: on one of its lines, between semicolons.
pub open spec fn is_in_lines(lines: Seq<Seq<char>>, n: int, input: Seq<char>) -> bool {
    exists|i: int|
        0 <= i < n && is_in_parts(
            split_at_char(#[trigger] lines[i], ';'),
            split_at_char(lines[i], ';').len() as int,
            input,
        )
}

proof fn lemma_lines(lines: Seq<Seq<char>>, n: int, input: Seq<char>)
    requires
        0 <= n <= lines.len(),
    ensures
        response_inputs(lines, n).contains(input) <==> is_in_lines(lines, n, input),
    decreases n,
{
    if n > 0 {
        lemma_lines(lines, n - 1, input);
        let parts = split_at_char(lines[n - 1], ';');
        lemma_parts(parts, parts.len() as int, input);
        lemma_contained(
            response_inputs(lines, n - 1),
            inputs_in(parts, parts.len() as int),
            input,
        );
    }
}

/// What a response file stands for: what its lines hold between semicolons, blank parts left out.
pub proof fn law_response_file_holds_its_inputs(text: Seq<char>, input: Seq<char>)
    ensures
        inputs_of(text).contains(input) <==> is_in_lines(
            text_lines(text),
            text_lines(text).len() as int,
            input,
        ),
{
    lemma_lines(text_lines(text), text_lines(text).len() as int, input);
}

/// Inputs that begin with `@` stand for what their response files hold, and others for themselves.
pub proof fn law_inputs_are_expanded(
    inputs: Seq<Seq<char>>,
    read: Seq<Seq<char>>,
    n: int,
    input: Seq<char>,
)
    requires
        0 <= n <= inputs.len(),
    ensures
        expanded(inputs, read, n).contains(input) <==> exists|i: int|
            0 <= i < n && if (#[trigger] inputs[i]).len() > 0 && inputs[i][0] == '@' {
                inputs_of(read[i]).contains(input)
            } else {
                inputs[i] == input
            },
    decreases n,
{
    if n > 0 {
        let before = expanded(inputs, read, n - 1);
        let all = expanded(inputs, read, n);
        let last = inputs[n - 1];
        law_inputs_are_expanded(inputs, read, n - 1, input);
        if last.len() > 0 && last[0] == '@' {
            lemma_contained(before, inputs_of(read[n - 1]), input);
        } else {
            lemma_contained(before, seq![last], input);
            assert(before + seq![last] =~= all);
            assert(seq![last].contains(input) <==> last == input) by {
                assert(seq![last][0] == last);
            }
        }
    }
}

/// A response file is named by what stands behind the `@`.
pub proof fn law_response_file_is_named(name: Seq<char>)
    ensures
        response_file(seq!['@'] + name) == Some(name),
{
    assert((seq!['@'] + name).drop_first() =~= name);
}

} // verus!
