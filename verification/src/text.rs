//! Utilities over character sequences, and the byte-offset model.
//!
//! The engine works on sequences of characters; token offsets are
//! reported as byte offsets into the UTF-8 encoding of the original
//! text.  `byte_offset` is the mathematical bridge between the two:
//! it agrees with the length of the UTF-8 encoding of a prefix, and
//! it is what every contract about `byte_start` / `byte_end` speaks
//! of.

use vstd::prelude::*;

verus! {

use vstd::utf8::{encode_scalar, encode_utf8, char_is_scalar};

/// Relies on `String::push`: appends one character to the string.
pub assume_specification[ String::push ](s: &mut String, c: char)
    ensures
        final(s)@ == old(s)@.push(c),
;

/// The number of bytes the UTF-8 encoding of `c` takes (1 to 4).
pub open spec fn char_width(c: char) -> int {
    encode_scalar(c as u32).len() as int
}

/// The byte offset at which the `i`-th character of `s` starts in the
/// UTF-8 encoding of `s`; for `i == s.len()`, the total byte length.
pub open spec fn byte_offset(s: Seq<char>, i: int) -> int
    decreases i,
{
    if i <= 0 {
        0
    } else {
        byte_offset(s, i - 1) + char_width(s[i - 1])
    }
}

/// A character encodes to between one and four bytes.
pub proof fn lemma_char_width_bounds(c: char)
    ensures
        1 <= char_width(c) <= 4,
{
    broadcast use char_is_scalar;

}

/// `byte_offset(s, i)` is the byte length of the encoding of the
/// first `i` characters of `s`, so offsets computed character by
/// character agree with the UTF-8 encoding of the text.
pub proof fn lemma_byte_offset_is_utf8_len(s: Seq<char>, i: int)
    requires
        0 <= i <= s.len(),
    ensures
        byte_offset(s, i) == encode_utf8(s.take(i)).len(),
    decreases i,
{
    if i == 0 {
        assert(s.take(0).len() == 0);
        reveal_with_fuel(encode_utf8, 1);
    } else {
        lemma_byte_offset_is_utf8_len(s, i - 1);
        lemma_encode_utf8_snoc(s.take(i - 1), s[i - 1]);
        assert(s.take(i) =~= s.take(i - 1).push(s[i - 1]));
    }
}

/// Appending one character to a sequence appends its encoding.
proof fn lemma_encode_utf8_snoc(s: Seq<char>, c: char)
    ensures
        encode_utf8(s.push(c)) == encode_utf8(s) + encode_scalar(c as u32),
    decreases s.len(),
{
    if s.len() == 0 {
        assert(s.push(c)[0] == c);
        assert(s.push(c).drop_first() =~= s);
        assert(encode_utf8(s) =~= Seq::<u8>::empty());
        assert(encode_utf8(s.push(c)) =~= encode_scalar(c as u32) + encode_utf8(s));
        assert(encode_scalar(c as u32) + encode_utf8(s) =~= encode_utf8(s) + encode_scalar(
            c as u32,
        ));
    } else {
        assert(s.push(c)[0] == s[0]);
        assert(s.push(c).drop_first() =~= s.drop_first().push(c));
        lemma_encode_utf8_snoc(s.drop_first(), c);
        assert(encode_utf8(s.push(c)) =~= encode_scalar(s[0] as u32) + (encode_utf8(
            s.drop_first(),
        ) + encode_scalar(c as u32)));
        assert(encode_scalar(s[0] as u32) + (encode_utf8(s.drop_first()) + encode_scalar(
            c as u32,
        )) =~= (encode_scalar(s[0] as u32) + encode_utf8(s.drop_first())) + encode_scalar(
            c as u32,
        ));
    }
}

/// Byte offsets grow by at least one byte per character and at most
/// four.
pub proof fn lemma_byte_offset_mono(s: Seq<char>, i: int, j: int)
    requires
        0 <= i <= j,
        j <= s.len(),
    ensures
        byte_offset(s, i) + (j - i) <= byte_offset(s, j) <= byte_offset(s, i) + 4 * (j - i),
    decreases j - i,
{
    if i < j {
        lemma_byte_offset_mono(s, i, j - 1);
        lemma_char_width_bounds(s[j - 1]);
    }
}

/// Byte offsets of a prefix do not depend on the characters behind
/// it.
pub proof fn lemma_byte_offset_prefix(s: Seq<char>, t: Seq<char>, i: int)
    requires
        0 <= i <= s.len(),
        i <= t.len(),
        s.take(i) == t.take(i),
    ensures
        byte_offset(s, i) == byte_offset(t, i),
    decreases i,
{
    if i > 0 {
        assert(s.take(i)[i - 1] == s[i - 1]);
        assert(t.take(i)[i - 1] == t[i - 1]);
        assert(s[i - 1] == t[i - 1]);
        assert(s.take(i - 1) =~= s.take(i).take(i - 1));
        assert(t.take(i - 1) =~= t.take(i).take(i - 1));
        assert(s.take(i - 1) == t.take(i - 1));
        lemma_byte_offset_prefix(s, t, i - 1);
    }
}

/// Computes the width of the UTF-8 encoding of one character.
pub fn char_width_of(c: char) -> (r: usize)
    ensures
        r == char_width(c),
{
    proof {
        broadcast use char_is_scalar;

    }
    let u = c as u32;
    if u < 0x80 {
        1
    } else if u < 0x800 {
        2
    } else if u < 0x10000 {
        3
    } else {
        4
    }
}

/// The characters of `s`, as a vector.
pub fn to_chars(s: &str) -> (r: Vec<char>)
    ensures
        r@ == s@,
{
    let n = s.unicode_len();
    let mut r: Vec<char> = Vec::new();
    let mut i: usize = 0;
    while i < n
        invariant
            n == s@.len(),
            i <= n,
            r@ == s@.take(i as int),
        decreases n - i,
    {
        let c = s.get_char(i);
        r.push(c);
        assert(s@.take(i + 1) =~= s@.take(i as int).push(s@[i as int]));
        i = i + 1;
    }
    assert(s@.take(n as int) =~= s@);
    r
}

/// The string holding exactly the characters of `v`.
pub fn chars_to_string(v: &[char]) -> (r: String)
    ensures
        r@ == v@,
{
    let n = v.len();
    let mut r = String::new();
    let mut i: usize = 0;
    while i < n
        invariant
            n == v@.len(),
            i <= n,
            r@ == v@.take(i as int),
        decreases n - i,
    {
        r.push(v[i]);
        assert(v@.take(i + 1) =~= v@.take(i as int).push(v@[i as int]));
        i = i + 1;
    }
    assert(v@.take(n as int) =~= v@);
    r
}

/// The string holding exactly the characters `s[from..to]`.
pub fn chars_range_to_string(s: &[char], from: usize, to: usize) -> (r: String)
    requires
        from <= to <= s@.len(),
    ensures
        r@ == s@.subrange(from as int, to as int),
{
    let mut r = String::new();
    let mut i: usize = from;
    while i < to
        invariant
            from <= i <= to <= s@.len(),
            r@ == s@.subrange(from as int, i as int),
        decreases to - i,
    {
        r.push(s[i]);
        assert(s@.subrange(from as int, i + 1) =~= s@.subrange(from as int, i as int).push(
            s@[i as int],
        ));
        i = i + 1;
    }
    r
}

/// True when the two strings hold the same characters.
pub fn str_eq(a: &str, b: &str) -> (r: bool)
    ensures
        r == (a@ == b@),
{
    let na = a.unicode_len();
    let nb = b.unicode_len();
    if na != nb {
        assert(a@ != b@);
        return false;
    }
    let mut i: usize = 0;
    while i < na
        invariant
            na == a@.len(),
            na == b@.len(),
            i <= na,
            forall|k: int| 0 <= k < i ==> a@[k] == b@[k],
        decreases na - i,
    {
        if a.get_char(i) != b.get_char(i) {
            return false;
        }
        i = i + 1;
    }
    assert(a@ =~= b@);
    true
}

/// True when the characters `s[from..to]` equal the characters of
/// `t`.
pub fn chars_match_at(s: &[char], from: usize, t: &[char]) -> (r: bool)
    requires
        from <= s@.len(),
    ensures
        r == (from + t@.len() <= s@.len() && s@.subrange(
            from as int,
            from + t@.len(),
        ) == t@),
{
    let m = t.len();
    let n = s.len();
    if m > n - from {
        return false;
    }
    let mut i: usize = 0;
    while i < m
        invariant
            n == s@.len(),
            from + m <= n,
            m == t@.len(),
            i <= m,
            forall|k: int| 0 <= k < i ==> s@[from + k] == t@[k],
        decreases m - i,
    {
        if s[from + i] != t[i] {
            assert(s@.subrange(from as int, from + t@.len())[i as int] == s@[from + i]);
            return false;
        }
        i = i + 1;
    }
    assert(s@.subrange(from as int, from + t@.len()) =~= t@);
    true
}

} // verus!
