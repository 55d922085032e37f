//! What is written as text is read back, and what is cut from a text is found in it.

use vstd::prelude::*;
use vstd::arithmetic::power::pow;
use crate::cmd::modmeta::laws::law_decimal_text_is_read_back;
use crate::cmd::prepatch::report::hex_of;
use crate::text::{
    decimal_text, hex_padded, hex_text, is_space, lower_char, parsed_u32, slashed, split_at_char,
    text_lines, trimmed, trimmed_end, trimmed_start, upper_char, without_plus, HEX_DIGITS,
};

verus! {

/// What a digit counts in hexadecimal, if it is one. Letters are small.
pub open spec fn digit_value(c: char) -> Option<int> {
    if '0' <= c <= '9' {
        Some(c as int - '0' as int)
    } else if 'a' <= c <= 'f' {
        Some(c as int - 'a' as int + 10)
    } else {
        None
    }
}

/// The number that a hexadecimal text stands for, if it is one.
pub open spec fn hex_value(text: Seq<char>) -> Option<int>
    decreases text.len(),
{
    if text.len() == 0 {
        Some(0)
    } else {
        match (hex_value(text.drop_last()), digit_value(text.last())) {
            (Some(high), Some(low)) => Some(16 * high + low),
            _ => None,
        }
    }
}

proof fn lemma_digit(v: int)
    requires
        0 <= v < 16,
    ensures
        digit_value(HEX_DIGITS@[v]) == Some(v),
{
}

/// The number that a hexadecimal text stands for is the number that was written, and only zero begins
/// with a zero.
pub proof fn law_hex_text_is_read_back(v: int)
    requires
        0 <= v,
    ensures
        hex_value(hex_text(v)) == Some(v),
        hex_text(v).len() > 0,
        hex_text(v)[0] == '0' <==> v == 0,
    decreases v,
{
    let text = hex_text(v);
    lemma_digit(v % 16);
    if v >= 16 {
        law_hex_text_is_read_back(v / 16);
        assert(text.drop_last() =~= hex_text(v / 16));
        assert(text[0] == hex_text(v / 16)[0]);
    } else {
        assert(text.drop_last() =~= Seq::empty());
        assert(hex_value(Seq::<char>::empty()) == Some(0int));
    }
}

/// A number in so many hexadecimal digits has that many, and they stand for the number where they
/// suffice.
pub proof fn law_padded_hex_is_read_back(v: int, n: nat)
    requires
        0 <= v,
    ensures
        hex_padded(v, n as int).len() == n,
        v < pow(16, n) ==> hex_value(hex_padded(v, n as int)) == Some(v),
    decreases n,
{
    reveal(pow);
    if n > 0 {
        let text = hex_padded(v, n as int);
        law_padded_hex_is_read_back(v / 16, (n - 1) as nat);
        lemma_digit(v % 16);
        assert(text.drop_last() =~= hex_padded(v / 16, n - 1));
        assert(pow(16, n) == 16 * pow(16, (n - 1) as nat));
        let high = pow(16, (n - 1) as nat);
        if v < pow(16, n) {
            assert(v / 16 < high);
        }
    }
}

/// Bytes have two hexadecimal digits each, in their order, which stand for them.
pub proof fn law_hex_bytes_are_read_back(bytes: Seq<u8>, i: int)
    requires
        0 <= i < bytes.len(),
    ensures
        hex_of(bytes).len() == 2 * bytes.len(),
        hex_value(hex_of(bytes).subrange(2 * i, 2 * i + 2)) == Some(bytes[i] as int),
    decreases bytes.len(),
{
    let text = hex_of(bytes);
    let before = bytes.drop_last();
    let last = hex_padded(bytes.last() as int, 2);
    law_padded_hex_is_read_back(bytes.last() as int, 2);
    reveal(pow);
    assert(pow(16, 2) == 256) by {
        assert(pow(16, 1) == 16 * pow(16, 0));
        assert(pow(16, 2) == 16 * pow(16, 1));
    }
    if before.len() > 0 {
        law_hex_bytes_are_read_back(before, 0);
    }
    assert(hex_of(before).len() == 2 * before.len());
    if i < before.len() {
        law_hex_bytes_are_read_back(before, i);
        assert(text.subrange(2 * i, 2 * i + 2) =~= hex_of(before).subrange(2 * i, 2 * i + 2));
    } else {
        assert(text.subrange(2 * i, 2 * i + 2) =~= last);
    }
}

/// A number is read from its decimal text, with or without a plus sign before it, and from no text with
/// anything but digits behind the sign.
pub proof fn law_numbers_are_read(v: u32, text: Seq<char>, i: int)
    requires
        0 <= i < text.len(),
    ensures
        parsed_u32(decimal_text(v as int)) == Some(v),
        parsed_u32(seq!['+'] + decimal_text(v as int)) == Some(v),
        !('0' <= text[i] <= '9') && !(i == 0 && text[0] == '+') ==> parsed_u32(text) is None,
        parsed_u32(Seq::empty()) is None,
        parsed_u32(seq!['+']) is None,
{
    law_decimal_text_is_read_back(v as int);
    let digits = decimal_text(v as int);
    assert(digits[0] != '+');
    assert((seq!['+'] + digits).drop_first() =~= digits);
    assert(seq!['+'].drop_first().len() == 0);
    if !('0' <= text[i] <= '9') && !(i == 0 && text[0] == '+') {
        if text[0] == '+' {
            assert(without_plus(text)[i - 1] == text[i]);
        } else {
            assert(without_plus(text)[i] == text[i]);
        }
    }
}

/// A text without a separator is one piece. Otherwise its first piece goes up to the first separator,
/// and the other pieces are those of what follows it.
pub proof fn law_pieces_stand_between_separators(first: Seq<char>, rest: Seq<char>, sep: char)
    requires
        !first.contains(sep),
    ensures
        split_at_char(first, sep) == seq![first],
        split_at_char(first.push(sep) + rest, sep) == seq![first] + split_at_char(rest, sep),
{
    first.index_of_first_ensures(sep);
    let whole = first.push(sep) + rest;
    let n = first.len() as int;
    assert(whole[n] == sep);
    whole.index_of_first_ensures(sep);
    assert(whole.index_of_first(sep) == Some(n)) by {
        let at = whole.index_of_first(sep)->0;
        if at < n {
            assert(first[at] == sep);
        }
    }
    assert(whole.subrange(0, n) =~= first);
    assert(whole.subrange(n + 1, whole.len() as int) =~= rest);
}

/// A line goes up to its line feed, and a carriage return before it is not part of the line. What
/// stands behind the last line feed is a line unless it is empty, and keeps a carriage return.
pub proof fn law_lines_stand_between_line_feeds(line: Seq<char>, rest: Seq<char>)
    requires
        !line.contains('\n'),
    ensures
        text_lines(Seq::empty()) == Seq::<Seq<char>>::empty(),
        line.len() > 0 ==> text_lines(line) == seq![line],
        line.len() == 0 || line.last() != '\r' ==> text_lines(line.push('\n') + rest) == seq![line]
            + text_lines(rest),
        text_lines(line.push('\r').push('\n') + rest) == seq![line] + text_lines(rest),
{
    line.index_of_first_ensures('\n');
    lemma_first_line(line, rest);
    let returned = line.push('\r');
    assert(!returned.contains('\n')) by {
        if returned.contains('\n') {
            let at = choose|at: int| 0 <= at < returned.len() && returned[at] == '\n';
            assert(line[at] == '\n');
        }
    }
    lemma_first_line(returned, rest);
    assert(returned.drop_last() =~= line);
}

proof fn lemma_first_line(first: Seq<char>, rest: Seq<char>)
    requires
        !first.contains('\n'),
    ensures
        text_lines(first.push('\n') + rest) == seq![
            if first.len() > 0 && first.last() == '\r' {
                first.drop_last()
            } else {
                first
            },
        ] + text_lines(rest),
{
    let whole = first.push('\n') + rest;
    let n = first.len() as int;
    assert(whole[n] == '\n');
    whole.index_of_first_ensures('\n');
    assert(whole.index_of_first('\n') == Some(n)) by {
        let at = whole.index_of_first('\n')->0;
        if at < n {
            assert(first[at] == '\n');
        }
    }
    assert(whole.subrange(0, n) =~= first);
    assert(whole.subrange(n + 1, whole.len() as int) =~= rest);
}

proof fn lemma_trimmed_start(blank: Seq<char>, text: Seq<char>)
    requires
        forall|i: int| 0 <= i < blank.len() ==> is_space(#[trigger] blank[i]),
    ensures
        trimmed_start(blank + text) == trimmed_start(text),
    decreases blank.len(),
{
    if blank.len() == 0 {
        assert(blank + text =~= text);
    } else {
        assert((blank + text)[0] == blank[0]);
        assert((blank + text).drop_first() =~= blank.drop_first() + text);
        lemma_trimmed_start(blank.drop_first(), text);
    }
}

proof fn lemma_trimmed_end(text: Seq<char>, blank: Seq<char>)
    requires
        forall|i: int| 0 <= i < blank.len() ==> is_space(#[trigger] blank[i]),
    ensures
        trimmed_end(text + blank) == trimmed_end(text),
    decreases blank.len(),
{
    if blank.len() == 0 {
        assert(text + blank =~= text);
    } else {
        assert((text + blank).last() == blank.last());
        assert((text + blank).drop_last() =~= text + blank.drop_last());
        lemma_trimmed_end(text, blank.drop_last());
    }
}

/// White space around a text is dropped, and nothing of the text that begins and ends with something
/// else.
pub proof fn law_white_space_is_trimmed(before: Seq<char>, text: Seq<char>, after: Seq<char>)
    requires
        forall|i: int| 0 <= i < before.len() ==> is_space(#[trigger] before[i]),
        forall|i: int| 0 <= i < after.len() ==> is_space(#[trigger] after[i]),
        text.len() > 0 ==> !is_space(text[0]) && !is_space(text.last()),
    ensures
        trimmed(before + text + after) == text,
{
    assert(before + text + after =~= before + (text + after));
    lemma_trimmed_start(before, text + after);
    if text.len() > 0 {
        assert((text + after)[0] == text[0]);
        lemma_trimmed_end(text, after);
    } else {
        assert(text + after =~= after + text);
        lemma_trimmed_start(after, text);
    }
}

/// Blanks, tabs and line ends are white space; letters, digits and what is printed of ASCII are not.
pub proof fn law_printed_characters_are_no_space(c: char)
    ensures
        c == ' ' || c == '\t' || c == '\n' || c == '\r' ==> is_space(c),
        '!' <= c <= '~' ==> !is_space(c),
{
}

/// Every backslash becomes a slash, and every other character stays.
pub proof fn law_slashes_replace_backslashes(path: Seq<char>, i: int)
    requires
        0 <= i < path.len(),
    ensures
        slashed(path).len() == path.len(),
        slashed(path)[i] != '\\',
        path[i] == '\\' ==> slashed(path)[i] == '/',
        path[i] != '\\' ==> slashed(path)[i] == path[i],
{
}

/// The cases of an ASCII letter are each other's, and no other character has two.
pub proof fn law_letters_have_two_cases(c: char)
    ensures
        'a' <= c <= 'z' ==> 'A' <= upper_char(c) <= 'Z' && upper_char(c) as int - 'A' as int == c as int
            - 'a' as int && lower_char(upper_char(c)) == c && lower_char(c) == c,
        'A' <= c <= 'Z' ==> 'a' <= lower_char(c) <= 'z' && upper_char(lower_char(c)) == c && upper_char(
            c,
        ) == c,
        !('a' <= c <= 'z') && !('A' <= c <= 'Z') ==> upper_char(c) == c && lower_char(c) == c,
{
}

} // verus!
