//! Character classes, ASCII case mapping, UTF-8 byte widths, and the
//! conversions between `&str`, `String` and `Vec<char>` that the rest of
//! the crate builds on.

use vstd::prelude::*;
use vstd::std_specs::iter::IteratorSpec;

verus! {

broadcast use vstd::string::group_string_axioms;

/// True for the ASCII digits `0` through `9`.
pub open spec fn is_digit(c: char) -> bool {
    '0' <= c <= '9'
}

/// True for the ASCII lowercase letters.
pub open spec fn is_lower_alpha(c: char) -> bool {
    'a' <= c <= 'z'
}

/// True for the ASCII uppercase letters.
pub open spec fn is_upper_alpha(c: char) -> bool {
    'A' <= c <= 'Z'
}

/// True for ASCII letters and digits.
pub open spec fn is_ascii_alnum(c: char) -> bool {
    is_digit(c) || is_lower_alpha(c) || is_upper_alpha(c)
}

/// ASCII lowercase mapping: `A`..`Z` map to `a`..`z`, everything else is
/// unchanged.
pub open spec fn lower_char(c: char) -> char {
    if is_upper_alpha(c) {
        ((c as u32) + 32) as char
    } else {
        c
    }
}

/// ASCII uppercase mapping: `a`..`z` map to `A`..`Z`, everything else is
/// unchanged.
pub open spec fn upper_char(c: char) -> char {
    if is_lower_alpha(c) {
        ((c as u32) - 32) as char
    } else {
        c
    }
}

/// Decide whether `c` is an ASCII digit.
pub fn digit(c: char) -> (r: bool)
    ensures
        r == is_digit(c),
{
    '0' <= c && c <= '9'
}

/// Decide whether `c` is an ASCII letter or digit.
pub fn ascii_alnum(c: char) -> (r: bool)
    ensures
        r == is_ascii_alnum(c),
{
    ('0' <= c && c <= '9') || ('a' <= c && c <= 'z') || ('A' <= c && c <= 'Z')
}

/// Map `c` to ASCII lowercase.
pub fn to_lower(c: char) -> (r: char)
    ensures
        r == lower_char(c),
{
    if 'A' <= c && c <= 'Z' {
        (c as u8 + 32) as char
    } else {
        c
    }
}

/// Map `c` to ASCII uppercase.
pub fn to_upper(c: char) -> (r: char)
    ensures
        r == upper_char(c),
{
    if 'a' <= c && c <= 'z' {
        (c as u8 - 32) as char
    } else {
        c
    }
}

/// Number of bytes the UTF-8 encoding of `c` occupies.
pub open spec fn char_width(c: char) -> nat {
    if (c as u32) < 0x80 {
        1
    } else if (c as u32) < 0x800 {
        2
    } else if (c as u32) < 0x10000 {
        3
    } else {
        4
    }
}

/// Number of bytes the UTF-8 encoding of `s` occupies.
pub open spec fn byte_len(s: Seq<char>) -> nat
    decreases s.len(),
{
    if s.len() == 0 {
        0
    } else {
        char_width(s[0]) + byte_len(s.drop_first())
    }
}

/// The byte length of a concatenation is the sum of the byte lengths.
pub proof fn lemma_byte_len_concat(a: Seq<char>, b: Seq<char>)
    ensures
        byte_len(a + b) == byte_len(a) + byte_len(b),
    decreases a.len(),
{
    if a.len() == 0 {
        assert(a + b =~= b);
    } else {
        assert((a + b).drop_first() =~= a.drop_first() + b);
        lemma_byte_len_concat(a.drop_first(), b);
    }
}

/// Extending a prefix by one character grows its byte length by that
/// character's width.
pub proof fn lemma_byte_len_take_succ(s: Seq<char>, i: int)
    requires
        0 <= i < s.len(),
    ensures
        byte_len(s.take(i + 1)) == byte_len(s.take(i)) + char_width(s[i]),
{
    assert(s.take(i + 1) =~= s.take(i) + seq![s[i]]);
    lemma_byte_len_concat(s.take(i), seq![s[i]]);
    assert(seq![s[i]].drop_first() =~= Seq::<char>::empty());
    assert(byte_len(Seq::<char>::empty()) == 0);
    assert(byte_len(seq![s[i]]) == char_width(s[i]));
}

/// A prefix never has a larger byte length than the whole sequence.
pub proof fn lemma_byte_len_take_le(s: Seq<char>, i: int)
    requires
        0 <= i <= s.len(),
    ensures
        byte_len(s.take(i)) <= byte_len(s),
{
    assert(s =~= s.take(i) + s.skip(i));
    lemma_byte_len_concat(s.take(i), s.skip(i));
}

/// `byte_len` agrees with the length of the UTF-8 encoding.
pub proof fn lemma_byte_len_is_utf8_len(s: Seq<char>)
    ensures
        byte_len(s) == vstd::utf8::encode_utf8(s).len(),
    decreases s.len(),
{
    if s.len() > 0 {
        vstd::utf8::char_is_scalar(s[0]);
        lemma_byte_len_is_utf8_len(s.drop_first());
    }
}


/// Compute the UTF-8 width of a single character.
pub fn width_of(c: char) -> (r: usize)
    ensures
        r == char_width(c),
{
    let u = c as u32;
    if u < 0x80 {
        1
    } else if u < 0x800 {
        2
    } else if u < 0x10000 {
        3
    } else {
        4
    }
}

/// Collect the characters of `s` into a vector.
pub fn str_chars(s: &str) -> (r: Vec<char>)
    ensures
        r@ == s@,
{
    let mut it = s.chars();
    let mut v: Vec<char> = Vec::new();
    loop
        invariant
            v@ + it.remaining() == s@,
            it.obeys_prophetic_iter_laws(),
            it.decrease() is Some,
        ensures
            v@ == s@,
        decreases it.decrease()->0,
    {
        let ghost pre = it.remaining();
        match it.next() {
            Some(c) => {
                proof {
                    assert(v@ + pre =~= (v@ + seq![c]) + pre.drop_first());
                }
                v.push(c);
            },
            None => {
                proof {
                    assert(v@ + pre =~= v@);
                }
                break;
            },
        }
    }
    v
}

/// Build a `String` out of a vector of characters.
///
/// Relies on `String`'s `FromIterator<char>` implementation: collecting
/// characters yields the string made of exactly those characters in order.
#[verifier::external_body]
pub(crate) fn chars_to_string(v: &Vec<char>) -> (r: String)
    ensures
        r@ == v@,
{
    v.iter().collect()
}

/// Copy the characters of `v` between `from` and `to` into a fresh vector.
pub fn copy_range(v: &Vec<char>, from: usize, to: usize) -> (r: Vec<char>)
    requires
        from <= to <= v@.len(),
    ensures
        r@ == v@.subrange(from as int, to as int),
{
    let mut r: Vec<char> = Vec::new();
    let mut i = from;
    while i < to
        invariant
            from <= i <= to <= v@.len(),
            r@ == v@.subrange(from as int, i as int),
        decreases to - i,
    {
        r.push(v[i]);
        proof {
            assert(v@.subrange(from as int, i + 1 as int) =~= v@.subrange(from as int, i as int).push(
                v@[i as int],
            ));
        }
        i = i + 1;
    }
    r
}

} // verus!
