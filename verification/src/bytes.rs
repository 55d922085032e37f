//! Integer fields and byte ranges inside byte sequences.
//!
//! Every binary format handled by this crate is described as a sequence of bytes. The spec
//! functions here say what a little-endian (or big-endian) field of such a sequence holds and what
//! a sequence looks like after a field was written; the executable functions read and write them.

use vstd::prelude::*;
use vstd::utf8::*;
use crate::util::file::texts;

verus! {

/// The two bytes of `v`, least significant first.
#[verifier::opaque]
pub open spec fn le16(v: u16) -> Seq<u8> {
    seq![(v % 256) as u8, (v / 256) as u8]
}

/// The four bytes of `v`, least significant first.
#[verifier::opaque]
pub open spec fn le32(v: u32) -> Seq<u8> {
    seq![
        (v % 256) as u8,
        (v / 256 % 256) as u8,
        (v / 256 / 256 % 256) as u8,
        (v / 256 / 256 / 256) as u8,
    ]
}

/// The eight bytes of `v`, least significant first.
#[verifier::opaque]
pub open spec fn le64(v: u64) -> Seq<u8> {
    le32((v % 0x1_0000_0000) as u32) + le32((v / 0x1_0000_0000) as u32)
}

/// The four bytes of `v`, most significant first.
#[verifier::opaque]
pub open spec fn be32(v: u32) -> Seq<u8> {
    seq![
        (v / 256 / 256 / 256) as u8,
        (v / 256 / 256 % 256) as u8,
        (v / 256 % 256) as u8,
        (v % 256) as u8,
    ]
}

/// The little-endian value of the two bytes at `off`.
#[verifier::opaque]
pub open spec fn u16_at(s: Seq<u8>, off: int) -> u16 {
    (s[off] + 0x100 * s[off + 1]) as u16
}

/// The little-endian value of the four bytes at `off`.
#[verifier::opaque]
pub open spec fn u32_at(s: Seq<u8>, off: int) -> u32 {
    (s[off] + 0x100 * s[off + 1] + 0x1_0000 * s[off + 2] + 0x100_0000 * s[off + 3]) as u32
}

/// The little-endian value of the eight bytes at `off`.
#[verifier::opaque]
pub open spec fn u64_at(s: Seq<u8>, off: int) -> u64 {
    (u32_at(s, off) + 0x1_0000_0000 * u32_at(s, off + 4)) as u64
}

/// `n` zero bytes.
pub open spec fn zeros(n: int) -> Seq<u8> {
    Seq::new(if n < 0 { 0 } else { n as nat }, |i: int| 0u8)
}

/// The byte strings of a list.
pub open spec fn byte_rows(v: Seq<Vec<u8>>) -> Seq<Seq<u8>> {
    Seq::new(v.len(), |i: int| v[i]@)
}

/// `s` cut or extended with zero bytes to the length `n`.
pub open spec fn resized(s: Seq<u8>, n: int) -> Seq<u8> {
    if n <= s.len() {
        s.subrange(0, n)
    } else {
        s + zeros(n - s.len())
    }
}

/// Every byte of `s` is zero.
pub open spec fn all_zero(s: Seq<u8>) -> bool {
    forall|i: int| 0 <= i < s.len() ==> s[i] == 0
}

/// `s` with the bytes from `off` on replaced by `b`, as far as `b` reaches.
pub open spec fn overlay(s: Seq<u8>, off: int, b: Seq<u8>) -> Seq<u8> {
    Seq::new(s.len(), |i: int| if off <= i < off + b.len() { b[i - off] } else { s[i] })
}

/// The least multiple of `align` that is not below `v`.
pub open spec fn align_int(v: int, align: int) -> int {
    if v % align == 0 {
        v
    } else {
        v + (align - v % align)
    }
}

pub broadcast proof fn lemma_le16_len(v: u16)
    ensures
        (#[trigger] le16(v)).len() == 2,
{
    reveal(le16);
}

pub broadcast proof fn lemma_le32_len(v: u32)
    ensures
        (#[trigger] le32(v)).len() == 4,
{
    reveal(le32);
}

pub broadcast proof fn lemma_le64_len(v: u64)
    ensures
        (#[trigger] le64(v)).len() == 8,
{
    reveal(le32);
    reveal(le64);
}

pub broadcast proof fn lemma_be32_len(v: u32)
    ensures
        (#[trigger] be32(v)).len() == 4,
{
    reveal(be32);
}

pub broadcast group group_field_len {
    lemma_le16_len,
    lemma_le32_len,
    lemma_le64_len,
    lemma_be32_len,
}

/// A field read depends only on the bytes of that field.
pub proof fn lemma_u16_at_same(s: Seq<u8>, a: int, t: Seq<u8>, b: int)
    requires
        s.subrange(a, a + 2) == t.subrange(b, b + 2),
        0 <= a,
        a + 2 <= s.len(),
        0 <= b,
        b + 2 <= t.len(),
    ensures
        u16_at(s, a) == u16_at(t, b),
{
    reveal(u16_at);
    let (x, y) = (s.subrange(a, a + 2), t.subrange(b, b + 2));
    assert(x[0] == y[0] && x[1] == y[1]);
}

/// Reading a two-byte field gives back what was written.
pub proof fn lemma_u16_at_le(s: Seq<u8>, off: int, v: u16)
    requires
        0 <= off,
        off + 2 <= s.len(),
        s.subrange(off, off + 2) == le16(v),
    ensures
        u16_at(s, off) == v,
{
    reveal(u16_at);
    reveal(le16);
    let x = s.subrange(off, off + 2);
    assert(x[0] == s[off] && x[1] == s[off + 1]);
}

/// A field read depends only on the bytes of that field.
pub proof fn lemma_u32_at_same(s: Seq<u8>, a: int, t: Seq<u8>, b: int)
    requires
        s.subrange(a, a + 4) == t.subrange(b, b + 4),
        0 <= a,
        a + 4 <= s.len(),
        0 <= b,
        b + 4 <= t.len(),
    ensures
        u32_at(s, a) == u32_at(t, b),
{
    reveal(u32_at);
    assert(s[a + 0] == s.subrange(a, a + 4)[0]);
    assert(t[b + 0] == t.subrange(b, b + 4)[0]);
    assert(s[a + 1] == s.subrange(a, a + 4)[1]);
    assert(t[b + 1] == t.subrange(b, b + 4)[1]);
    assert(s[a + 2] == s.subrange(a, a + 4)[2]);
    assert(t[b + 2] == t.subrange(b, b + 4)[2]);
    assert(s[a + 3] == s.subrange(a, a + 4)[3]);
    assert(t[b + 3] == t.subrange(b, b + 4)[3]);
}

/// A field read depends only on the bytes of that field.
pub proof fn lemma_u64_at_same(s: Seq<u8>, a: int, t: Seq<u8>, b: int)
    requires
        s.subrange(a, a + 8) == t.subrange(b, b + 8),
        0 <= a,
        a + 8 <= s.len(),
        0 <= b,
        b + 8 <= t.len(),
    ensures
        u64_at(s, a) == u64_at(t, b),
{
    reveal(u64_at);
    assert(s.subrange(a, a + 4) =~= s.subrange(a, a + 8).subrange(0, 4));
    assert(t.subrange(b, b + 4) =~= t.subrange(b, b + 8).subrange(0, 4));
    assert(s.subrange(a + 4, a + 8) =~= s.subrange(a, a + 8).subrange(4, 8));
    assert(t.subrange(b + 4, b + 8) =~= t.subrange(b, b + 8).subrange(4, 8));
    lemma_u32_at_same(s, a, t, b);
    lemma_u32_at_same(s, a + 4, t, b + 4);
}

/// Reading a field gives back the value whose bytes stand there.
pub proof fn lemma_u32_at_le(s: Seq<u8>, off: int, v: u32)
    requires
        0 <= off,
        off + 4 <= s.len(),
        s.subrange(off, off + 4) == le32(v),
    ensures
        u32_at(s, off) == v,
{
    reveal(u32_at);
    reveal(le32);
    assert(s.subrange(off, off + 4)[0] == s[off]);
    assert(s.subrange(off, off + 4)[1] == s[off + 1]);
    assert(s.subrange(off, off + 4)[2] == s[off + 2]);
    assert(s.subrange(off, off + 4)[3] == s[off + 3]);
}

/// Reading a field gives back the value whose bytes stand there.
pub proof fn lemma_u64_at_le(s: Seq<u8>, off: int, v: u64)
    requires
        0 <= off,
        off + 8 <= s.len(),
        s.subrange(off, off + 8) == le64(v),
    ensures
        u64_at(s, off) == v,
{
    broadcast use group_field_len;

    reveal(u64_at);
    reveal(le64);
    let lo = (v % 0x1_0000_0000) as u32;
    let hi = (v / 0x1_0000_0000) as u32;
    assert(s.subrange(off, off + 4) =~= le64(v).subrange(0, 4));
    assert(le64(v).subrange(0, 4) =~= le32(lo));
    assert(s.subrange(off + 4, off + 8) =~= le64(v).subrange(4, 8));
    assert(le64(v).subrange(4, 8) =~= le32(hi));
    lemma_u32_at_le(s, off, lo);
    lemma_u32_at_le(s, off + 4, hi);
}

/// Writing bytes and reading the same range gives the written bytes back.
pub proof fn lemma_overlay_same(s: Seq<u8>, off: int, b: Seq<u8>)
    requires
        0 <= off,
        off + b.len() <= s.len(),
    ensures
        overlay(s, off, b).subrange(off, off + b.len()) == b,
{
    assert(overlay(s, off, b).subrange(off, off + b.len()) =~= b);
}

/// Writing bytes leaves every range that does not meet them as it was.
pub proof fn lemma_overlay_apart(s: Seq<u8>, off: int, b: Seq<u8>, lo: int, hi: int)
    requires
        0 <= lo <= hi <= s.len(),
        hi <= off || off + b.len() <= lo,
    ensures
        overlay(s, off, b).subrange(lo, hi) == s.subrange(lo, hi),
{
    assert(overlay(s, off, b).subrange(lo, hi) =~= s.subrange(lo, hi));
}

/// Aligning does not go down and goes up by less than the alignment.
pub proof fn lemma_align_int(v: int, align: int)
    requires
        0 <= v,
        0 < align,
    ensures
        v <= align_int(v, align) < v + align,
        align_int(v, align) % align == 0,
{
    let r = v % align;
    assert(0 <= r < align) by (nonlinear_arith)
        requires
            0 < align,
            r == v % align,
    ;
    if r != 0 {
        let q = v / align;
        assert(v == align * q + r) by (nonlinear_arith)
            requires
                0 < align,
                r == v % align,
                q == v / align,
        ;
        assert((v + (align - r)) % align == 0) by (nonlinear_arith)
            requires
                0 < align,
                v == align * q + r,
        {
            assert(v + (align - r) == align * (q + 1));
            vstd::arithmetic::div_mod::lemma_mod_multiples_basic(q + 1, align);
        }
    }
}

/// The two-byte field at `off`.
pub fn get_u16(s: &[u8], off: usize) -> (v: u16)
    requires
        off + 2 <= s@.len(),
    ensures
        v == u16_at(s@, off as int),
{
    proof {
        reveal(u16_at);
    }
    s[off] as u16 + 0x100 * (s[off + 1] as u16)
}

/// The four-byte field at `off`.
pub fn get_u32(s: &[u8], off: usize) -> (v: u32)
    requires
        off + 4 <= s@.len(),
    ensures
        v == u32_at(s@, off as int),
{
    proof {
        reveal(u32_at);
    }
    s[off] as u32 + 0x100 * (s[off + 1] as u32) + 0x1_0000 * (s[off + 2] as u32) + 0x100_0000 * (
    s[off + 3] as u32)
}

/// The eight-byte field at `off`.
pub fn get_u64(s: &[u8], off: usize) -> (v: u64)
    requires
        off + 8 <= s@.len(),
    ensures
        v == u64_at(s@, off as int),
{
    proof {
        reveal(u64_at);
    }
    assert(s.len() <= usize::MAX);
    let lo: u32 = get_u32(s, off);
    let hi: u32 = get_u32(s, off + 4);
    lo as u64 + 0x1_0000_0000 * (hi as u64)
}

/// Append bytes.
pub fn push_bytes(out: &mut Vec<u8>, b: &[u8])
    ensures
        final(out)@ == old(out)@ + b@,
{
    out.extend_from_slice(b);
    assert(out@ =~= old(out)@ + b@);
}

/// Append a two-byte field.
pub fn push_u16(out: &mut Vec<u8>, v: u16)
    ensures
        final(out)@ == old(out)@ + le16(v),
{
    proof {
        reveal(le16);
    }
    out.push((v % 256) as u8);
    out.push((v / 256) as u8);
    assert(out@ =~= old(out)@ + le16(v));
}

/// Append a four-byte field.
pub fn push_u32(out: &mut Vec<u8>, v: u32)
    ensures
        final(out)@ == old(out)@ + le32(v),
{
    proof {
        reveal(le32);
    }
    out.push((v % 256) as u8);
    out.push((v / 256 % 256) as u8);
    out.push((v / 256 / 256 % 256) as u8);
    out.push((v / 256 / 256 / 256) as u8);
    assert(out@ =~= old(out)@ + le32(v));
}

/// Append an eight-byte field.
pub fn push_u64(out: &mut Vec<u8>, v: u64)
    ensures
        final(out)@ == old(out)@ + le64(v),
{
    proof {
        reveal(le64);
    }
    push_u32(out, (v % 0x1_0000_0000) as u32);
    push_u32(out, (v / 0x1_0000_0000) as u32);
    assert(out@ =~= old(out)@ + le64(v));
}

/// Append a big-endian four-byte field.
pub fn push_be32(out: &mut Vec<u8>, v: u32)
    ensures
        final(out)@ == old(out)@ + be32(v),
{
    proof {
        reveal(be32);
    }
    out.push((v / 256 / 256 / 256) as u8);
    out.push((v / 256 / 256 % 256) as u8);
    out.push((v / 256 % 256) as u8);
    out.push((v % 256) as u8);
    assert(out@ =~= old(out)@ + be32(v));
}

/// Cut the bytes, or extend them with zeros, to the length `n`.
pub fn resize_zero(out: &mut Vec<u8>, n: usize)
    ensures
        final(out)@ == resized(old(out)@, n as int),
{
    let ghost before = out@;
    out.resize(n, 0);
    proof {
        if n > before.len() {
            assert forall|i: int| 0 <= i < n implies out@[i] == resized(before, n as int)[i] by {
                if i < before.len() {
                    assert(out@.subrange(0, before.len() as int)[i] == before[i]);
                } else {
                    assert(cloned::<u8>(0u8, out@[i]));
                }
            }
        }
    }
    assert(out@ =~= resized(before, n as int));
}

/// Replace the bytes at `off`.
pub fn put_bytes(data: &mut Vec<u8>, off: usize, b: &[u8])
    requires
        off + b@.len() <= old(data)@.len(),
    ensures
        final(data)@ == overlay(old(data)@, off as int, b@),
{
    let ghost before = data@;
    assert(data.len() <= usize::MAX);
    let mut i: usize = 0;
    while i < b.len()
        invariant
            before.len() <= usize::MAX,
            i <= b@.len(),
            before.len() == data@.len(),
            off + b@.len() <= before.len(),
            data@ == overlay(before, off as int, b@.subrange(0, i as int)),
        decreases b@.len() - i,
    {
        data[off + i] = b[i];
        i = i + 1;
        assert(data@ =~= overlay(before, off as int, b@.subrange(0, i as int)));
    }
    assert(b@.subrange(0, b@.len() as int) =~= b@);
}

/// Replace the four-byte field at `off`.
pub fn put_u32(data: &mut Vec<u8>, off: usize, v: u32)
    requires
        off + 4 <= old(data)@.len(),
    ensures
        final(data)@ == overlay(old(data)@, off as int, le32(v)),
{
    let mut field: Vec<u8> = Vec::new();
    push_u32(&mut field, v);
    assert(field@ =~= le32(v));
    proof {
        lemma_le32_len(v);
    }
    put_bytes(data, off, &field);
}

/// Replace the two-byte field at `off`.
pub fn put_u16(data: &mut Vec<u8>, off: usize, v: u16)
    requires
        off + 2 <= old(data)@.len(),
    ensures
        final(data)@ == overlay(old(data)@, off as int, le16(v)),
{
    let mut field: Vec<u8> = Vec::new();
    push_u16(&mut field, v);
    assert(field@ =~= le16(v));
    proof {
        lemma_le16_len(v);
    }
    put_bytes(data, off, &field);
}

/// Replace the eight-byte field at `off`.
pub fn put_u64(data: &mut Vec<u8>, off: usize, v: u64)
    requires
        off + 8 <= old(data)@.len(),
    ensures
        final(data)@ == overlay(old(data)@, off as int, le64(v)),
{
    let mut field: Vec<u8> = Vec::new();
    push_u64(&mut field, v);
    assert(field@ =~= le64(v));
    proof {
        lemma_le64_len(v);
    }
    put_bytes(data, off, &field);
}

/// A copy of the bytes.
pub fn copy_bytes(s: &[u8]) -> (r: Vec<u8>)
    ensures
        r@ == s@,
{
    let mut out: Vec<u8> = Vec::new();
    push_bytes(&mut out, s);
    assert(out@ =~= s@);
    out
}

/// Whether two ranges hold the same bytes.
pub fn same_bytes(a: &[u8], b: &[u8]) -> (r: bool)
    ensures
        r == (a@ == b@),
{
    if a.len() != b.len() {
        return false;
    }
    let mut i: usize = 0;
    while i < a.len()
        invariant
            i <= a@.len(),
            a@.len() == b@.len(),
            forall|j: int| 0 <= j < i ==> a@[j] == b@[j],
        decreases a@.len() - i,
    {
        if a[i] != b[i] {
            return false;
        }
        i = i + 1;
    }
    assert(a@ =~= b@);
    true
}

/// Whether every byte is zero.
pub fn is_all_zero(s: &[u8]) -> (r: bool)
    ensures
        r == all_zero(s@),
{
    let mut i: usize = 0;
    while i < s.len()
        invariant
            i <= s@.len(),
            forall|j: int| 0 <= j < i ==> s@[j] == 0,
        decreases s@.len() - i,
    {
        if s[i] != 0 {
            return false;
        }
        i = i + 1;
    }
    true
}

/// The bytes before the first zero byte of `s`, or nothing where no zero byte follows.
pub open spec fn c_string(s: Seq<u8>) -> Option<Seq<u8>> {
    match s.index_of_first(0u8) {
        Some(i) => Some(s.subrange(0, i)),
        None => None,
    }
}

/// The first place at which a zero byte stands pins down `index_of_first`.
pub proof fn lemma_first_zero(s: Seq<u8>, i: int)
    requires
        0 <= i < s.len(),
        s[i] == 0,
        forall|j: int| 0 <= j < i ==> s[j] != 0,
    ensures
        s.index_of_first(0u8) == Some(i),
{
    s.index_of_first_ensures(0u8);
    assert(s.contains(0u8));
}

/// The position of the first zero byte.
pub fn find_zero(s: &[u8]) -> (r: Option<usize>)
    ensures
        match r {
            Some(i) => s@.index_of_first(0u8) == Some(i as int) && i < s@.len(),
            None => s@.index_of_first(0u8) is None,
        },
{
    let mut i: usize = 0;
    while i < s.len()
        invariant
            i <= s@.len(),
            forall|j: int| 0 <= j < i ==> s@[j] != 0,
        decreases s@.len() - i,
    {
        if s[i] == 0 {
            proof {
                lemma_first_zero(s@, i as int);
            }
            return Some(i);
        }
        i = i + 1;
    }
    proof {
        s@.index_of_first_ensures(0u8);
    }
    None
}

/// Whether `s` begins with `prefix`.
pub open spec fn begins(s: Seq<u8>, prefix: Seq<u8>) -> bool {
    s.len() >= prefix.len() && s.subrange(0, prefix.len() as int) == prefix
}

/// Whether `s` begins with `prefix`.
pub fn bytes_begin(s: &[u8], prefix: &[u8]) -> (r: bool)
    ensures
        r == begins(s@, prefix@),
{
    s.len() >= prefix.len() && same_bytes(&s[0..prefix.len()], prefix)
}

/// Whether `part` stands somewhere in `s`.
pub open spec fn holds(s: Seq<u8>, part: Seq<u8>) -> bool {
    exists|at: int|
        0 <= at <= s.len() - part.len() && #[trigger] s.subrange(at, at + part.len()) == part
}

/// Whether `part` stands somewhere in `s`.
pub fn bytes_hold(s: &[u8], part: &[u8]) -> (r: bool)
    ensures
        r == holds(s@, part@),
{
    if s.len() < part.len() {
        return false;
    }
    let last: usize = s.len() - part.len();
    let mut at: usize = 0;
    loop
        invariant
            at <= last,
            last + part@.len() == s@.len(),
            forall|k: int| 0 <= k < at ==> #[trigger] s@.subrange(k, k + part@.len()) != part@,
        decreases last - at,
    {
        let end: usize = s.len() - (last - at);
        if same_bytes(&s[at..end], part) {
            assert(s@.subrange(at as int, at + part@.len()) == part@);
            return true;
        }
        if at == last {
            return false;
        }
        at = at + 1;
    }
}

/// Whether one of the texts begins `s`.
pub open spec fn begins_any(s: Seq<u8>, prefixes: Seq<String>) -> bool {
    exists|i: int| 0 <= i < prefixes.len() && #[trigger] begins(s, encode_utf8(prefixes[i]@))
}

/// Whether one of the texts begins `s`.
pub fn bytes_begin_any(s: &[u8], prefixes: &[String]) -> (r: bool)
    ensures
        r == begins_any(s@, prefixes@),
{
    let mut i: usize = 0;
    while i < prefixes.len()
        invariant
            i <= prefixes@.len(),
            forall|k: int| 0 <= k < i ==> !#[trigger] begins(s@, encode_utf8(prefixes@[k]@)),
        decreases prefixes@.len() - i,
    {
        if bytes_begin(s, prefixes[i].as_str().as_bytes()) {
            assert(begins(s@, encode_utf8(prefixes@[i as int]@)));
            return true;
        }
        i = i + 1;
    }
    false
}

/// Whether one of the texts stands in `s`.
pub open spec fn holds_any(s: Seq<u8>, parts: Seq<Seq<char>>) -> bool {
    exists|i: int| 0 <= i < parts.len() && #[trigger] holds(s, encode_utf8(parts[i]))
}

/// Whether one of the texts stands in `s`.
pub fn bytes_hold_any(s: &[u8], parts: &[String]) -> (r: bool)
    ensures
        r == holds_any(s@, texts(parts@)),
{
    let mut i: usize = 0;
    while i < parts.len()
        invariant
            i <= parts@.len(),
            forall|k: int| 0 <= k < i ==> !#[trigger] holds(s@, encode_utf8(texts(parts@)[k])),
        decreases parts@.len() - i,
    {
        assert(texts(parts@)[i as int] == parts@[i as int]@);
        if bytes_hold(s, parts[i].as_str().as_bytes()) {
            assert(holds(s@, encode_utf8(texts(parts@)[i as int])));
            return true;
        }
        i = i + 1;
    }
    false
}

} // verus!
