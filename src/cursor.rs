//! A read position in a string, counted in bytes, as both parsers keep it.
//!
//! A position is usable when the bytes from it to the end are valid UTF-8,
//! that is, when it falls on a character boundary; the characters from it
//! on are what is left to read.
use vstd::prelude::*;
use vstd::string::*;
use vstd::utf8::*;

use crate::text::{is_whitespace, whitespace};

verus! {

broadcast use vstd::utf8::encode_utf8_decode_utf8, vstd::utf8::encode_utf8_valid_utf8;

/// The UTF-8 encoding of `s`.
pub open spec fn bytes_of(s: String) -> Seq<u8> {
    encode_utf8(s@)
}

/// `pos` is a character boundary of `s`.
pub open spec fn on_boundary(s: String, pos: int) -> bool {
    0 <= pos <= bytes_of(s).len() && valid_utf8(bytes_of(s).subrange(pos, bytes_of(s).len() as int))
}

/// The characters of `s` from byte `pos` on.
pub open spec fn rest_of(s: String, pos: int) -> Seq<char> {
    decode_utf8(bytes_of(s).subrange(pos, bytes_of(s).len() as int))
}

/// The number of bytes that encode `c`.
pub open spec fn utf8_len(c: char) -> int {
    encode_scalar(c as u32).len() as int
}

/// A valid suffix starts at a character boundary.
proof fn lemma_boundary(b: Seq<u8>, i: int)
    requires
        valid_utf8(b),
        0 <= i <= b.len(),
        valid_utf8(b.subrange(i, b.len() as int)),
    ensures
        is_char_boundary(b, i),
{
    if i == b.len() {
        is_char_boundary_start_end_of_seq(b);
    } else {
        let t = b.subrange(i, b.len() as int);
        assert(t[0] == b[i]);
        is_char_boundary_iff_is_leading_byte(b, i);
    }
}

/// Reading one character moves to the next boundary.
pub proof fn lemma_advance(s: String, pos: int)
    requires
        on_boundary(s, pos),
        pos < bytes_of(s).len(),
    ensures
        rest_of(s, pos).len() > 0,
        on_boundary(s, pos + utf8_len(rest_of(s, pos)[0])),
        rest_of(s, pos + utf8_len(rest_of(s, pos)[0])) == rest_of(s, pos).drop_first(),
        pos + utf8_len(rest_of(s, pos)[0]) <= bytes_of(s).len(),
{
    let b = bytes_of(s);
    let t = b.subrange(pos, b.len() as int);
    decode_utf8_first_scalar(t);
    let n = length_of_first_scalar(t);
    assert(pop_first_scalar(t) =~= b.subrange(pos + n, b.len() as int));
}

/// The position after the whole input: no characters are left.
pub proof fn lemma_end(s: String, pos: int)
    requires
        on_boundary(s, pos),
    ensures
        (pos == bytes_of(s).len()) == (rest_of(s, pos).len() == 0),
{
    let b = bytes_of(s);
    if pos < b.len() {
        lemma_advance(s, pos);
    } else {
        assert(b.subrange(pos, b.len() as int) =~= Seq::<u8>::empty());
    }
}

/// The characters between two boundaries are what was read between them.
proof fn lemma_between(s: String, start: int, end: int, m: int)
    requires
        on_boundary(s, start),
        on_boundary(s, end),
        start <= end,
        0 <= m <= rest_of(s, start).len(),
        rest_of(s, end) == rest_of(s, start).skip(m),
    ensures
        is_char_boundary(bytes_of(s), start),
        is_char_boundary(bytes_of(s), end),
        is_char_boundary(bytes_of(s).subrange(0, end), start),
        decode_utf8(bytes_of(s).subrange(start, end)) == rest_of(s, start).take(m),
{
    let b = bytes_of(s);
    let len = b.len() as int;
    lemma_boundary(b, start);
    lemma_boundary(b, end);
    let t = b.subrange(start, len);
    assert(t.subrange(end - start, t.len() as int) =~= b.subrange(end, len));
    lemma_boundary(t, end - start);
    valid_utf8_split(t, end - start);
    decode_utf8_split(t, end - start);
    assert(t.subrange(0, end - start) =~= b.subrange(start, end));
    let p = b.subrange(0, end);
    valid_utf8_split(b, end);
    assert(p.subrange(start, p.len() as int) =~= b.subrange(start, end));
    lemma_boundary(p, start);
    let r = rest_of(s, start);
    assert(r == decode_utf8(b.subrange(start, end)) + r.skip(m));
    assert(r.take(m) =~= decode_utf8(b.subrange(start, end))) by {
        assert(r.skip(m).len() == r.len() - m);
    }
}

/// The start of a string is a boundary with every character left to read.
pub proof fn lemma_start(s: String)
    ensures
        on_boundary(s, 0),
        rest_of(s, 0) == s@,
{
    assert(bytes_of(s).subrange(0, bytes_of(s).len() as int) =~= bytes_of(s));
}

/// The byte length of `s`.
pub fn byte_len(s: &String) -> (r: usize)
    ensures
        r == bytes_of(*s).len(),
{
    s.as_str().as_bytes().len()
}

/// The character that starts at byte `pos`.
pub fn char_at(s: &String, pos: usize) -> (c: char)
    requires
        on_boundary(*s, pos as int),
        pos < bytes_of(*s).len(),
    ensures
        c == rest_of(*s, pos as int)[0],
{
    proof {
        lemma_advance(*s, pos as int);
        lemma_boundary(bytes_of(*s), pos as int);
    }
    let (_, tail) = s.as_str().split_at(pos);
    proof {
        assert(decode_utf8(encode_utf8(tail@)) == tail@);
        assert(tail@ == rest_of(*s, pos as int));
    }
    let mut chars = tail.chars();
    match chars.next() {
        Some(c) => c,
        None => unreached(),
    }
}

/// How many bytes encode `c`.
pub fn char_len(c: char) -> (r: usize)
    ensures
        r == utf8_len(c),
        1 <= r <= 4,
{
    let v = c as u32;
    if v <= 0x7f {
        1
    } else if v <= 0x7ff {
        2
    } else if v <= 0xffff {
        3
    } else {
        4
    }
}

/// The characters of `s` from byte `start` to byte `end`, as a new string.
pub fn text_between(s: &String, start: usize, end: usize, Ghost(m): Ghost<int>) -> (r: String)
    requires
        on_boundary(*s, start as int),
        on_boundary(*s, end as int),
        start <= end,
        0 <= m <= rest_of(*s, start as int).len(),
        rest_of(*s, end as int) == rest_of(*s, start as int).skip(m),
    ensures
        r@ == rest_of(*s, start as int).take(m),
{
    proof {
        lemma_between(*s, start as int, end as int, m);
    }
    let (head, _) = s.as_str().split_at(end);
    let (_, piece) = head.split_at(start);
    proof {
        assert(piece.spec_bytes() =~= bytes_of(*s).subrange(start as int, end as int));
        assert(decode_utf8(encode_utf8(piece@)) == piece@);
    }
    piece.to_owned()
}

/// How many characters at the start of `s` satisfy `p`.
pub open spec fn run_len(s: Seq<char>, p: spec_fn(char) -> bool) -> int
    decreases s.len(),
{
    if s.len() > 0 && p(s[0]) {
        1 + run_len(s.drop_first(), p)
    } else {
        0
    }
}

pub proof fn lemma_run_len_bounds(s: Seq<char>, p: spec_fn(char) -> bool)
    ensures
        0 <= run_len(s, p) <= s.len(),
        s.len() > 0 && p(s[0]) ==> run_len(s, p) >= 1,
    decreases s.len(),
{
    if s.len() > 0 {
        lemma_run_len_bounds(s.drop_first(), p);
    }
}

/// A stretch of characters satisfying `p` that ends where `p` fails, or at
/// the end, is the run at the start.
pub proof fn lemma_run_len(s: Seq<char>, p: spec_fn(char) -> bool, k: int)
    requires
        0 <= k <= s.len(),
        forall|j: int| 0 <= j < k ==> p(#[trigger] s[j]),
        k < s.len() ==> !p(s[k]),
    ensures
        run_len(s, p) == k,
    decreases k,
{
    if k > 0 {
        let t = s.drop_first();
        assert forall|j: int| 0 <= j < k - 1 implies p(#[trigger] t[j]) by {
            assert(t[j] == s[j + 1]);
        }
        if k < s.len() {
            assert(t[k - 1] == s[k]);
        }
        assert(p(s[0]));
        lemma_run_len(t, p, k - 1);
    }
}

/// A later boundary leaves fewer characters to read.
pub proof fn lemma_later_shorter(s: String, from: int, to: int)
    requires
        on_boundary(s, from),
        on_boundary(s, to),
        from < to,
    ensures
        rest_of(s, to).len() < rest_of(s, from).len(),
{
    let b = bytes_of(s);
    let len = b.len() as int;
    let t = b.subrange(from, len);
    assert(t.subrange(to - from, t.len() as int) =~= b.subrange(to, len));
    lemma_boundary(t, to - from);
    valid_utf8_split(t, to - from);
    decode_utf8_split(t, to - from);
    let u = t.subrange(0, to - from);
    assert(u.len() > 0);
    assert(decode_utf8(u).len() > 0);
}

/// How many characters of `s` come before the first `stop`.
pub open spec fn chars_before(s: Seq<char>, stop: char) -> int
    decreases s.len(),
{
    if s.len() > 0 && s[0] != stop {
        1 + chars_before(s.drop_first(), stop)
    } else {
        0
    }
}

pub proof fn lemma_chars_before(s: Seq<char>, stop: char, k: int)
    requires
        0 <= k <= s.len(),
        forall|j: int| 0 <= j < k ==> #[trigger] s[j] != stop,
        k < s.len() ==> s[k] == stop,
    ensures
        chars_before(s, stop) == k,
    decreases k,
{
    if k > 0 {
        let t = s.drop_first();
        assert forall|j: int| 0 <= j < k - 1 implies #[trigger] t[j] != stop by {
            assert(t[j] == s[j + 1]);
        }
        if k < s.len() {
            assert(t[k - 1] == s[k]);
        }
        assert(s[0] != stop);
        lemma_chars_before(t, stop, k - 1);
    }
}

pub proof fn lemma_chars_before_bounds(s: Seq<char>, stop: char)
    ensures
        0 <= chars_before(s, stop) <= s.len(),
        s.len() > 0 && s[0] != stop ==> chars_before(s, stop) >= 1,
    decreases s.len(),
{
    if s.len() > 0 {
        lemma_chars_before_bounds(s.drop_first(), stop);
    }
}

/// Whether the characters from byte `pos` on start with `prefix`.
pub fn starts_with_at(s: &String, pos: usize, prefix: &str) -> (r: bool)
    requires
        on_boundary(*s, pos as int),
    ensures
        r == (prefix@.len() <= rest_of(*s, pos as int).len() && rest_of(*s, pos as int).take(
            prefix@.len() as int,
        ) == prefix@),
{
    let ghost rest = rest_of(*s, pos as int);
    let n = prefix.unicode_len();
    let len = byte_len(s);
    let mut p = pos;
    let mut i: usize = 0;
    proof {
        assert(rest.skip(0) =~= rest);
    }
    while i < n
        invariant
            n == prefix@.len(),
            len == bytes_of(*s).len(),
            rest == rest_of(*s, pos as int),
            0 <= i <= n,
            on_boundary(*s, p as int),
            i <= rest.len(),
            rest_of(*s, p as int) == rest.skip(i as int),
            rest.take(i as int) == prefix@.take(i as int),
        decreases n - i,
    {
        proof {
            lemma_end(*s, p as int);
        }
        if p >= len {
            return false;
        }
        let c = char_at(s, p);
        if c != prefix.get_char(i) {
            proof {
                assert(rest[i as int] == c);
                if prefix@.len() <= rest.len() {
                    assert(rest.take(prefix@.len() as int)[i as int] == c);
                }
            }
            return false;
        }
        proof {
            lemma_advance(*s, p as int);
            assert(rest.skip(i as int).drop_first() =~= rest.skip(i + 1));
            assert(rest.take(i + 1) =~= rest.take(i as int).push(c));
            assert(prefix@.take(i + 1) =~= prefix@.take(i as int).push(c));
        }
        p = p + char_len(c);
        i = i + 1;
    }
    proof {
        assert(prefix@.take(n as int) =~= prefix@);
    }
    true
}

/// Whether byte `pos` is at or past the end of `s`.
pub fn at_end(s: &String, pos: usize) -> (r: bool)
    ensures
        r == (pos >= bytes_of(*s).len()),
        on_boundary(*s, pos as int) ==> (r == (rest_of(*s, pos as int).len() == 0)),
{
    proof {
        if on_boundary(*s, pos as int) {
            lemma_end(*s, pos as int);
        }
    }
    pos >= byte_len(s)
}

/// Read the character at `pos` and move past it.
pub fn consume_char_at(s: &String, pos: &mut usize) -> (r: char)
    requires
        on_boundary(*s, *old(pos) as int),
        rest_of(*s, *old(pos) as int).len() > 0,
    ensures
        r == rest_of(*s, *old(pos) as int)[0],
        on_boundary(*s, *final(pos) as int),
        *final(pos) == *old(pos) + utf8_len(r),
        *final(pos) > *old(pos),
        rest_of(*s, *final(pos) as int) == rest_of(*s, *old(pos) as int).drop_first(),
{
    proof {
        lemma_end(*s, *pos as int);
        lemma_advance(*s, *pos as int);
    }
    let c = char_at(s, *pos);
    let _len = byte_len(s);
    *pos = *pos + char_len(c);
    c
}

/// Read characters from `pos` while `test` accepts them; return them.
pub fn consume_while_at<F: Fn(char) -> bool>(s: &String, pos: &mut usize, test: F) -> (r: String)
    requires
        on_boundary(*s, *old(pos) as int),
        forall|c: char| test.requires((c,)),
    ensures
        ({
            let rest = rest_of(*s, *old(pos) as int);
            &&& on_boundary(*s, *final(pos) as int)
            &&& *final(pos) >= *old(pos)
            &&& r@.len() <= rest.len()
            &&& r@ == rest.take(r@.len() as int)
            &&& rest_of(*s, *final(pos) as int) == rest.skip(r@.len() as int)
            &&& forall|j: int| 0 <= j < r@.len() ==> test.ensures((#[trigger] r@[j],), true)
            &&& r@.len() < rest.len() ==> test.ensures((rest[r@.len() as int],), false)
        }),
{
    let start = *pos;
    let ghost rest0 = rest_of(*s, start as int);
    let mut m: usize = 0;
    proof {
        assert(rest0.skip(0) =~= rest0);
    }
    while !at_end(s, *pos) && test(char_at(s, *pos))
        invariant
            on_boundary(*s, *pos as int),
            rest0 == rest_of(*s, start as int),
            m <= rest0.len(),
            rest_of(*s, *pos as int) == rest0.skip(m as int),
            start <= *pos,
            m <= *pos - start,
            forall|j: int| 0 <= j < m ==> test.ensures((#[trigger] rest0[j],), true),
            forall|c: char| test.requires((c,)),
        decreases rest_of(*s, *pos as int).len(),
    {
        let ghost c = rest_of(*s, *pos as int)[0];
        consume_char_at(s, pos);
        proof {
            assert(rest0[m as int] == c);
            assert(rest0.skip(m as int).drop_first() =~= rest0.skip(m + 1));
        }
        m = m + 1;
    }
    let r = text_between(s, start, *pos, Ghost(m as int));
    proof {
        assert(r@.len() == m);
        assert forall|j: int| 0 <= j < r@.len() implies test.ensures((#[trigger] r@[j],), true) by {
            assert(r@[j] == rest0[j]);
        }
        if m < rest0.len() {
            lemma_end(*s, *pos as int);
            assert(rest_of(*s, *pos as int)[0] == rest0[m as int]);
        }
    }
    r
}

/// Skip white space from `pos`.
pub fn consume_whitespace_at(s: &String, pos: &mut usize)
    requires
        on_boundary(*s, *old(pos) as int),
    ensures
        on_boundary(*s, *final(pos) as int),
        *final(pos) >= *old(pos),
        rest_of(*s, *final(pos) as int) == rest_of(*s, *old(pos) as int).skip(
            run_len(rest_of(*s, *old(pos) as int), |c: char| is_whitespace(c)),
        ),
{
    let ghost rest0 = rest_of(*s, *pos as int);
    let r = consume_while_at(s, pos, whitespace);
    proof {
        assert forall|j: int| 0 <= j < r@.len() implies is_whitespace(#[trigger] rest0[j]) by {
            assert(r@[j] == rest0[j]);
            assert(whitespace.ensures((r@[j],), true));
        }
        if r@.len() < rest0.len() {
            assert(whitespace.ensures((rest0[r@.len() as int],), false));
        }
        lemma_run_len(rest0, |c: char| is_whitespace(c), r@.len() as int);
    }
}

/// Read characters from `pos` up to the first `stop`, or to the end.
pub fn consume_until_at(s: &String, pos: &mut usize, stop: char) -> (r: String)
    requires
        on_boundary(*s, *old(pos) as int),
    ensures
        on_boundary(*s, *final(pos) as int),
        *final(pos) >= *old(pos),
        r@ == rest_of(*s, *old(pos) as int).take(chars_before(rest_of(*s, *old(pos) as int), stop)),
        rest_of(*s, *final(pos) as int) == rest_of(*s, *old(pos) as int).skip(
            chars_before(rest_of(*s, *old(pos) as int), stop),
        ),
{
    let ghost rest0 = rest_of(*s, *pos as int);
    let r = consume_while_at(s, pos, |c: char| -> (r: bool) ensures r == (c != stop) { c != stop });
    proof {
        assert forall|j: int| 0 <= j < r@.len() implies #[trigger] rest0[j] != stop by {
            assert(r@[j] == rest0[j]);
        }
        lemma_chars_before(rest0, stop, r@.len() as int);
    }
    r
}

/// Move past `c` if it is the character at `pos`.
pub fn expect_at(s: &String, pos: &mut usize, c: char) -> (r: bool)
    requires
        on_boundary(*s, *old(pos) as int),
    ensures
        on_boundary(*s, *final(pos) as int),
        *final(pos) >= *old(pos),
        r ==> *final(pos) > *old(pos),
        r == (rest_of(*s, *old(pos) as int).len() > 0 && rest_of(*s, *old(pos) as int)[0] == c),
        rest_of(*s, *final(pos) as int) == if r {
            rest_of(*s, *old(pos) as int).drop_first()
        } else {
            rest_of(*s, *old(pos) as int)
        },
{
    if !at_end(s, *pos) && char_at(s, *pos) == c {
        consume_char_at(s, pos);
        true
    } else {
        false
    }
}

/// Skipping twice is skipping the sum.
pub proof fn lemma_skip_skip(a: Seq<char>, x: int, y: int)
    requires
        0 <= x <= a.len(),
        0 <= y <= a.len() - x,
    ensures
        a.skip(x).skip(y) == a.skip(x + y),
        a.skip(x).len() == a.len() - x,
{
    assert(a.skip(x).skip(y) =~= a.skip(x + y));
}

} // verus!
