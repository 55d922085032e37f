//! Text inside byte sequences.

use vstd::prelude::*;
use vstd::utf8::*;
use crate::bytes::copy_bytes;

verus! {

/// The text that `String::from_utf8_lossy` makes of `bytes`.
pub uninterp spec fn lossy_text(bytes: Seq<u8>) -> Seq<char>;

/// `String::from_utf8_lossy`: the text of the bytes, with a replacement character for each part
/// that is not UTF-8. Bytes that are UTF-8 throughout give exactly the text that they encode; what
/// the replacements look like otherwise is left to its name.
#[verifier::external_body]
pub(crate) fn lossy_string(bytes: &[u8]) -> (r: String)
    ensures
        r@ == lossy_text(bytes@),
        valid_utf8(bytes@) ==> r@ == decode_utf8(bytes@),
{
    String::from_utf8_lossy(bytes).into_owned()
}

/// The text of bytes: what they encode where they are UTF-8, and else the text with replacements.
pub open spec fn shown_text(bytes: Seq<u8>) -> Seq<char> {
    if valid_utf8(bytes) {
        decode_utf8(bytes)
    } else {
        lossy_text(bytes)
    }
}

/// `String::from_utf8`: the text of the bytes where they are UTF-8, and nothing where they are not.
#[verifier::external_body]
pub(crate) fn utf8_string(bytes: Vec<u8>) -> (r: Option<String>)
    ensures
        match r {
            Some(s) => valid_utf8(bytes@) && encode_utf8(s@) == bytes@,
            None => !valid_utf8(bytes@),
        },
{
    String::from_utf8(bytes).ok()
}

/// A symbol as bytes, without one leading underscore.
pub open spec fn without_underscore(name: Seq<u8>) -> Seq<u8> {
    if name.len() > 0 && name[0] == 0x5f {
        name.subrange(1, name.len() as int)
    } else {
        name
    }
}

/// The text of a symbol without one leading underscore.
pub(crate) fn symbol_string(name: &[u8]) -> (r: String)
    ensures
        r@ == shown_text(without_underscore(name@)),
{
    if name.len() > 0 && name[0] == 0x5f {
        lossy_string(&name[1..name.len()])
    } else {
        lossy_string(name)
    }
}

/// `String::from_iter`: the text of the characters.
#[verifier::external_body]
pub(crate) fn string_from_chars(chars: &[char]) -> (r: String)
    ensures
        r@ == chars@,
{
    String::from_iter(chars)
}

/// The characters of a text.
pub fn to_chars(s: &str) -> (r: Vec<char>)
    ensures
        r@ == s@,
{
    let mut out: Vec<char> = Vec::new();
    for c in it: s.chars()
        invariant
            it.seq() == s@,
            out@ == s@.subrange(0, it.index() as int),
    {
        out.push(c);
        assert(out@ =~= s@.subrange(0, it.index() + 1));
    }
    assert(s@.subrange(0, s@.len() as int) =~= s@);
    out
}

/// A path with slashes for backslashes.
pub open spec fn slashed(s: Seq<char>) -> Seq<char> {
    Seq::new(
        s.len(),
        |i: int|
            if s[i] == '\\' {
                '/'
            } else {
                s[i]
            },
    )
}

/// Put slashes for backslashes.
pub fn slash(s: &[char]) -> (r: Vec<char>)
    ensures
        r@ == slashed(s@),
{
    let mut out: Vec<char> = Vec::new();
    let mut i: usize = 0;
    while i < s.len()
        invariant
            i <= s@.len(),
            out@ == slashed(s@).subrange(0, i as int),
        decreases s@.len() - i,
    {
        out.push(
            if s[i] == '\\' {
                '/'
            } else {
                s[i]
            },
        );
        assert(out@ =~= slashed(s@).subrange(0, i + 1));
        i = i + 1;
    }
    assert(out@ =~= slashed(s@));
    out
}

/// The characters with the Unicode property `White_Space`.
pub open spec fn is_space(c: char) -> bool {
    let n = c as u32;
    ||| 9 <= n <= 13
    ||| n == 0x20
    ||| n == 0x85
    ||| n == 0xa0
    ||| n == 0x1680
    ||| 0x2000 <= n <= 0x200a
    ||| n == 0x2028
    ||| n == 0x2029
    ||| n == 0x202f
    ||| n == 0x205f
    ||| n == 0x3000
}

/// Whether `c` has the Unicode property `White_Space`.
pub fn char_is_space(c: char) -> (r: bool)
    ensures
        r == is_space(c),
{
    let n: u32 = c as u32;
    (9 <= n && n <= 13) || n == 0x20 || n == 0x85 || n == 0xa0 || n == 0x1680 || (0x2000 <= n && n
        <= 0x200a) || n == 0x2028 || n == 0x2029 || n == 0x202f || n == 0x205f || n == 0x3000
}

/// The text without white space at its start.
pub open spec fn trimmed_start(s: Seq<char>) -> Seq<char>
    decreases s.len(),
{
    if s.len() > 0 && is_space(s[0]) {
        trimmed_start(s.drop_first())
    } else {
        s
    }
}

/// The text without white space at its end.
pub open spec fn trimmed_end(s: Seq<char>) -> Seq<char>
    decreases s.len(),
{
    if s.len() > 0 && is_space(s.last()) {
        trimmed_end(s.drop_last())
    } else {
        s
    }
}

/// The text without white space at its ends.
pub open spec fn trimmed(s: Seq<char>) -> Seq<char> {
    trimmed_end(trimmed_start(s))
}

/// Cut white space off both ends.
pub fn trim_chars(s: &[char]) -> (r: &[char])
    ensures
        r@ == trimmed(s@),
{
    let mut lo: usize = 0;
    assert(s@.subrange(0, s@.len() as int) =~= s@);
    while lo < s.len() && char_is_space(s[lo])
        invariant
            lo <= s@.len(),
            trimmed_start(s@.subrange(lo as int, s@.len() as int)) == trimmed_start(s@),
        decreases s@.len() - lo,
    {
        assert(s@.subrange(lo as int, s@.len() as int).drop_first() =~= s@.subrange(
            lo + 1,
            s@.len() as int,
        ));
        lo = lo + 1;
    }
    let ghost front = s@.subrange(lo as int, s@.len() as int);
    assert(trimmed_start(front) == front);
    let mut hi: usize = s.len();
    while hi > lo && char_is_space(s[hi - 1])
        invariant
            lo <= hi <= s@.len(),
            trimmed_end(s@.subrange(lo as int, hi as int)) == trimmed_end(front),
        decreases hi,
    {
        assert(s@.subrange(lo as int, hi as int).drop_last() =~= s@.subrange(
            lo as int,
            hi - 1,
        ));
        hi = hi - 1;
    }
    &s[lo..hi]
}

/// The parts of the text between the separators `sep`; a text without separator is its own part.
pub open spec fn split_at_char(s: Seq<char>, sep: char) -> Seq<Seq<char>>
    decreases s.len(),
{
    match s.index_of_first(sep) {
        Some(i) => if 0 <= i < s.len() {
            seq![s.subrange(0, i)] + split_at_char(s.subrange(i + 1, s.len() as int), sep)
        } else {
            seq![s]
        },
        None => seq![s],
    }
}

/// The lines of the text: each ends before `\n` or `\r\n`, and the last line ending is optional.
pub open spec fn text_lines(s: Seq<char>) -> Seq<Seq<char>>
    decreases s.len(),
{
    if s.len() == 0 {
        Seq::empty()
    } else {
        match s.index_of_first('\n') {
            Some(i) => if 0 <= i < s.len() {
                seq![without_return(s.subrange(0, i))] + text_lines(
                    s.subrange(i + 1, s.len() as int),
                )
            } else {
                seq![s]
            },
            None => seq![s],
        }
    }
}

/// A line without one carriage return at its end.
pub open spec fn without_return(s: Seq<char>) -> Seq<char> {
    if s.len() > 0 && s.last() == '\r' {
        s.drop_last()
    } else {
        s
    }
}

/// The rows of a list of character vectors.
pub open spec fn rows(v: Seq<Vec<char>>) -> Seq<Seq<char>> {
    Seq::new(v.len(), |i: int| v[i]@)
}

/// A copy of the characters.
pub fn copy_chars(s: &[char]) -> (r: Vec<char>)
    ensures
        r@ == s@,
{
    let mut out: Vec<char> = Vec::with_capacity(s.len());
    let mut i: usize = 0;
    while i < s.len()
        invariant
            i <= s@.len(),
            out@ == s@.subrange(0, i as int),
        decreases s@.len() - i,
    {
        out.push(s[i]);
        i = i + 1;
        assert(out@ =~= s@.subrange(0, i as int));
    }
    assert(s@.subrange(0, s@.len() as int) =~= s@);
    out
}

/// The first place at which `c` stands pins down `index_of_first`.
proof fn lemma_first_char(s: Seq<char>, c: char, i: int)
    requires
        0 <= i < s.len(),
        s[i] == c,
        forall|j: int| 0 <= j < i ==> s[j] != c,
    ensures
        s.index_of_first(c) == Some(i),
{
    s.index_of_first_ensures(c);
    assert(s.contains(c));
}

/// The first place at which `c` stands.
pub fn find_char(s: &[char], c: char) -> (r: Option<usize>)
    ensures
        match r {
            Some(i) => s@.index_of_first(c) == Some(i as int) && i < s@.len(),
            None => s@.index_of_first(c) is None,
        },
{
    let mut i: usize = 0;
    while i < s.len()
        invariant
            i <= s@.len(),
            forall|j: int| 0 <= j < i ==> s@[j] != c,
        decreases s@.len() - i,
    {
        if s[i] == c {
            proof {
                lemma_first_char(s@, c, i as int);
            }
            return Some(i);
        }
        i = i + 1;
    }
    proof {
        s@.index_of_first_ensures(c);
    }
    None
}

/// The parts of the text between the separators.
pub fn split_chars(s: &[char], sep: char) -> (r: Vec<Vec<char>>)
    ensures
        rows(r@) == split_at_char(s@, sep),
{
    let mut out: Vec<Vec<char>> = Vec::new();
    let mut start: usize = 0;
    assert(s@.subrange(0, s@.len() as int) =~= s@);
    assert(rows(out@) + split_at_char(s@, sep) =~= split_at_char(s@, sep));
    loop
        invariant
            start <= s@.len(),
            rows(out@) + split_at_char(s@.subrange(start as int, s@.len() as int), sep)
                == split_at_char(s@, sep),
        decreases s@.len() - start,
    {
        let rest: &[char] = &s[start..s.len()];
        let ghost before = out@;
        match find_char(rest, sep) {
            None => {
                out.push(copy_chars(rest));
                assert(rows(out@) =~= rows(before) + seq![rest@]);
                return out;
            },
            Some(i) => {
                out.push(copy_chars(&rest[0..i]));
                start = start + i + 1;
                proof {
                    let tail = s@.subrange(start as int, s@.len() as int);
                    assert(rest@.subrange(i + 1, rest@.len() as int) =~= tail);
                    assert(rows(out@) + split_at_char(tail, sep) =~= rows(before) + (seq![
                        rest@.subrange(0, i as int),
                    ] + split_at_char(tail, sep)));
                }
            },
        }
    }
}

/// The lines of the text.
pub fn line_chars(s: &[char]) -> (r: Vec<Vec<char>>)
    ensures
        rows(r@) == text_lines(s@),
{
    let mut out: Vec<Vec<char>> = Vec::new();
    let mut start: usize = 0;
    assert(s@.subrange(0, s@.len() as int) =~= s@);
    assert(rows(out@) + text_lines(s@) =~= text_lines(s@));
    while start < s.len()
        invariant
            start <= s@.len(),
            rows(out@) + text_lines(s@.subrange(start as int, s@.len() as int)) == text_lines(s@),
        decreases s@.len() - start,
    {
        let rest: &[char] = &s[start..s.len()];
        let ghost before = out@;
        match find_char(rest, '\n') {
            None => {
                out.push(copy_chars(rest));
                assert(rows(out@) =~= rows(before) + seq![rest@]);
                return out;
            },
            Some(i) => {
                let ghost raw = rest@.subrange(0, i as int);
                if i > 0 && rest[i - 1] == '\r' {
                    out.push(copy_chars(&rest[0..i - 1]));
                    assert(rest@.subrange(0, i - 1) =~= raw.drop_last());
                } else {
                    out.push(copy_chars(&rest[0..i]));
                }
                assert(out@.last()@ == without_return(raw));
                start = start + i + 1;
                proof {
                    let tail = s@.subrange(start as int, s@.len() as int);
                    assert(rest@.subrange(i + 1, rest@.len() as int) =~= tail);
                    assert(rows(out@) + text_lines(tail) =~= rows(before) + (seq![
                        without_return(raw),
                    ] + text_lines(tail)));
                }
            },
        }
    }
    assert(rows(out@) + text_lines(Seq::<char>::empty()) =~= rows(out@));
    assert(s@.subrange(start as int, s@.len() as int) =~= Seq::<char>::empty());
    out
}

/// An ASCII letter in upper case; every other character as it is.
pub open spec fn upper_char(c: char) -> char {
    if 'a' <= c <= 'z' {
        ((c as u32) - 32) as char
    } else {
        c
    }
}

/// The text with its ASCII letters in upper case.
pub open spec fn upper_text(s: Seq<char>) -> Seq<char> {
    Seq::new(s.len(), |i: int| upper_char(s[i]))
}

/// Whether `s` begins with `prefix`.
pub open spec fn begins_with(s: Seq<char>, prefix: Seq<char>) -> bool {
    s.len() >= prefix.len() && s.subrange(0, prefix.len() as int) == prefix
}

/// Whether the two texts are the same but for the case of the ASCII letters of the first, where the
/// second is in upper case.
pub fn upper_begins_with(s: &[char], prefix: &[char]) -> (r: bool)
    ensures
        r == begins_with(upper_text(s@), prefix@),
{
    if s.len() < prefix.len() {
        return false;
    }
    let mut i: usize = 0;
    while i < prefix.len()
        invariant
            i <= prefix@.len() <= s@.len(),
            forall|j: int| 0 <= j < i ==> upper_text(s@)[j] == prefix@[j],
        decreases prefix@.len() - i,
    {
        let c: char = s[i];
        let up: char = if 'a' <= c && c <= 'z' {
            (c as u8 - 32) as char
        } else {
            c
        };
        assert(up == upper_text(s@)[i as int]);
        if up != prefix[i] {
            assert(upper_text(s@).subrange(0, prefix@.len() as int)[i as int] != prefix@[i as int]);
            return false;
        }
        i = i + 1;
    }
    assert(upper_text(s@).subrange(0, prefix@.len() as int) =~= prefix@);
    true
}

/// Whether `s` begins with `prefix`.
pub fn chars_begin_with(s: &[char], prefix: &[char]) -> (r: bool)
    ensures
        r == begins_with(s@, prefix@),
{
    if s.len() < prefix.len() {
        return false;
    }
    let mut i: usize = 0;
    while i < prefix.len()
        invariant
            i <= prefix@.len() <= s@.len(),
            forall|j: int| 0 <= j < i ==> s@[j] == prefix@[j],
        decreases prefix@.len() - i,
    {
        if s[i] != prefix[i] {
            assert(s@.subrange(0, prefix@.len() as int)[i as int] != prefix@[i as int]);
            return false;
        }
        i = i + 1;
    }
    assert(s@.subrange(0, prefix@.len() as int) =~= prefix@);
    true
}

/// Whether the two texts are the same.
pub fn same_chars(a: &[char], b: &[char]) -> (r: bool)
    ensures
        r == (a@ == b@),
{
    if a.len() != b.len() {
        return false;
    }
    let r: bool = chars_begin_with(a, b);
    assert(a@.subrange(0, b@.len() as int) =~= a@);
    r
}

/// The UTF-8 form of the characters.
pub fn encode_chars(s: &[char]) -> (r: Vec<u8>)
    ensures
        r@ == encode_utf8(s@),
{
    let text: String = string_from_chars(s);
    copy_bytes(text.as_str().as_bytes())
}

/// The number that a text of decimal digits stands for.
pub open spec fn decimal_value(digits: Seq<char>) -> int
    decreases digits.len(),
{
    if digits.len() == 0 {
        0
    } else {
        10 * decimal_value(digits.drop_last()) + (digits.last() as int - '0' as int)
    }
}

/// Whether the text is a decimal digit or several.
pub open spec fn is_decimal(s: Seq<char>) -> bool {
    s.len() > 0 && forall|i: int| 0 <= i < s.len() ==> '0' <= #[trigger] s[i] <= '9'
}

/// The text without one leading plus sign.
pub open spec fn without_plus(s: Seq<char>) -> Seq<char> {
    if s.len() > 0 && s[0] == '+' {
        s.drop_first()
    } else {
        s
    }
}

/// The 32-bit number that a text gives: digits, with or without a plus sign before them.
pub open spec fn parsed_u32(s: Seq<char>) -> Option<u32> {
    let digits = without_plus(s);
    if is_decimal(digits) && decimal_value(digits) <= u32::MAX {
        Some(decimal_value(digits) as u32)
    } else {
        None
    }
}

proof fn lemma_decimal_grows(digits: Seq<char>, n: int)
    requires
        0 <= n <= digits.len(),
        forall|i: int| 0 <= i < digits.len() ==> '0' <= #[trigger] digits[i] <= '9',
    ensures
        0 <= decimal_value(digits.subrange(0, n)) <= decimal_value(digits),
    decreases digits.len(),
{
    if n < digits.len() {
        let before = digits.drop_last();
        assert(before.subrange(0, n) =~= digits.subrange(0, n));
        lemma_decimal_grows(before, n);
    } else {
        assert(digits.subrange(0, n) =~= digits);
        if n > 0 {
            let before = digits.drop_last();
            lemma_decimal_grows(before, n - 1);
            assert(before.subrange(0, n - 1) =~= before);
        }
    }
}

/// Read a 32-bit number.
pub fn parse_u32(s: &[char]) -> (r: Option<u32>)
    ensures
        r == parsed_u32(s@),
{
    let start: usize = if s.len() > 0 && s[0] == '+' {
        1
    } else {
        0
    };
    let ghost digits = without_plus(s@);
    assert(s@.subrange(start as int, s@.len() as int) =~= digits);
    if s.len() == start {
        return None;
    }
    let mut value: u64 = 0;
    let mut i: usize = start;
    assert(digits.subrange(0, 0) =~= Seq::empty());
    while i < s.len()
        invariant
            start <= i <= s@.len(),
            digits == s@.subrange(start as int, s@.len() as int),
            digits == without_plus(s@),
            forall|k: int| 0 <= k < i - start ==> '0' <= #[trigger] digits[k] <= '9',
            value == decimal_value(digits.subrange(0, i - start)),
            value <= u32::MAX,
        decreases s@.len() - i,
    {
        let c: char = s[i];
        assert(digits[i - start] == c);
        if c < '0' || c > '9' {
            return None;
        }
        proof {
            let now = digits.subrange(0, i - start + 1);
            assert(now.drop_last() =~= digits.subrange(0, i - start));
            assert(now.last() == c);
        }
        value = 10 * value + (c as u64 - '0' as u64);
        if value > u32::MAX as u64 {
            proof {
                if is_decimal(digits) {
                    lemma_decimal_grows(digits, i - start + 1);
                }
            }
            return None;
        }
        i = i + 1;
    }
    assert(digits.subrange(0, digits.len() as int) =~= digits);
    Some(value as u32)
}

/// The lower-case form of an ASCII letter; other characters as they are.
pub open spec fn lower_char(c: char) -> char {
    if 'A' <= c <= 'Z' {
        ((c as u32) + 32) as char
    } else {
        c
    }
}

/// The text with its ASCII letters in lower case.
pub open spec fn lower_text(s: Seq<char>) -> Seq<char> {
    Seq::new(s.len(), |i: int| lower_char(s[i]))
}

/// Put the ASCII letters of a text in lower case.
pub fn lower_string(s: &str) -> (r: String)
    ensures
        r@ == lower_text(s@),
{
    let chars: Vec<char> = to_chars(s);
    let mut out: Vec<char> = Vec::new();
    let mut i: usize = 0;
    while i < chars.len()
        invariant
            i <= chars@.len(),
            out@ == lower_text(chars@).subrange(0, i as int),
        decreases chars@.len() - i,
    {
        let c: char = chars[i];
        out.push(
            if 'A' <= c && c <= 'Z' {
                ((c as u8) + 32) as char
            } else {
                c
            },
        );
        assert(out@ =~= lower_text(chars@).subrange(0, i + 1));
        i = i + 1;
    }
    assert(out@ =~= lower_text(s@));
    string_from_chars(&out)
}

/// The hexadecimal digits.
pub const HEX_DIGITS: [char; 16] = [
    '0',
    '1',
    '2',
    '3',
    '4',
    '5',
    '6',
    '7',
    '8',
    '9',
    'a',
    'b',
    'c',
    'd',
    'e',
    'f',
];

/// A number in hexadecimal, without leading zeros.
pub open spec fn hex_text(v: int) -> Seq<char>
    decreases v,
{
    if v < 16 {
        seq![HEX_DIGITS@[v]]
    } else {
        hex_text(v / 16).push(HEX_DIGITS@[v % 16])
    }
}

/// A number in decimal, without leading zeros.
pub open spec fn decimal_text(v: int) -> Seq<char>
    decreases v,
{
    if v < 10 {
        seq![HEX_DIGITS@[v]]
    } else {
        decimal_text(v / 10).push(HEX_DIGITS@[v % 10])
    }
}

/// The last `n` hexadecimal digits of a number.
pub open spec fn hex_padded(v: int, n: int) -> Seq<char>
    decreases n,
{
    if n <= 0 {
        Seq::empty()
    } else {
        hex_padded(v / 16, n - 1).push(HEX_DIGITS@[v % 16])
    }
}

/// Append a number in hexadecimal, without leading zeros.
pub fn push_hex(out: &mut Vec<char>, v: u64)
    ensures
        final(out)@ == old(out)@ + hex_text(v as int),
    decreases v,
{
    if v < 16 {
        out.push(HEX_DIGITS[v as usize]);
        assert(out@ =~= old(out)@ + hex_text(v as int));
    } else {
        push_hex(out, v / 16);
        out.push(HEX_DIGITS[(v % 16) as usize]);
        assert(out@ =~= old(out)@ + hex_text(v as int));
    }
}

/// Append the last `n` hexadecimal digits of a number.
pub fn push_hex_padded(out: &mut Vec<char>, v: u64, n: u32)
    ensures
        final(out)@ == old(out)@ + hex_padded(v as int, n as int),
    decreases n,
{
    if n > 0 {
        push_hex_padded(out, v / 16, n - 1);
        out.push(HEX_DIGITS[(v % 16) as usize]);
    }
    assert(out@ =~= old(out)@ + hex_padded(v as int, n as int));
}

} // verus!
