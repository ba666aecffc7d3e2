//! Protection of dots inside version-number-like digit sequences.
//!
//! A version sequence is two or more digit runs joined by dots, such as
//! `1.2.3` or `7.20`. Scanning greedily through a leading digit run and
//! then through `.`-plus-digit-run groups protects exactly those dots that
//! sit directly between two ASCII digits, so the transformation is stated
//! pointwise: a dot with an ASCII digit on both sides becomes the reserved
//! placeholder, and every other character is unchanged.

use crate::chars::{chars_to_string, digit, is_digit, str_chars};
use crate::VERSION_DOT;
use vstd::prelude::*;

verus! {

/// True when position `i` of `s` holds a dot lying directly between two
/// ASCII digits, which is exactly when it belongs to a version sequence.
pub open spec fn protected_at(s: Seq<char>, i: int) -> bool {
    &&& 0 < i
    &&& i + 1 < s.len()
    &&& s[i] == '.'
    &&& is_digit(s[i - 1])
    &&& is_digit(s[i + 1])
}

/// `s` with every version dot replaced by the placeholder character.
pub open spec fn protect_spec(s: Seq<char>) -> Seq<char> {
    Seq::new(
        s.len(),
        |i: int|
            if protected_at(s, i) {
                VERSION_DOT
            } else {
                s[i]
            },
    )
}

/// `s` with every placeholder character replaced by a dot.
pub open spec fn restore_spec(s: Seq<char>) -> Seq<char> {
    Seq::new(
        s.len(),
        |i: int|
            if s[i] == VERSION_DOT {
                '.'
            } else {
                s[i]
            },
    )
}

/// Restoring after protecting gives the input back, provided the input did
/// not already contain the reserved placeholder character.
pub proof fn lemma_restore_protect(s: Seq<char>)
    requires
        forall|i: int| 0 <= i < s.len() ==> s[i] != VERSION_DOT,
    ensures
        restore_spec(protect_spec(s)) == s,
{
    assert(restore_spec(protect_spec(s)) =~= s);
}

/// Replace the dots of version sequences in `input` with the placeholder.
pub fn preserve_version_dots(input: &str) -> (r: String)
    ensures
        r@ == protect_spec(input@),
{
    let v = str_chars(input);
    let out = protect_chars(&v);
    chars_to_string(&out)
}

/// Replace the dots of version sequences in `v` with the placeholder.
pub(crate) fn protect_chars(v: &Vec<char>) -> (out: Vec<char>)
    ensures
        out@ == protect_spec(v@),
{
    let n = v.len();
    let mut out: Vec<char> = Vec::new();
    let mut i: usize = 0;
    while i < n
        invariant
            n == v@.len(),
            i <= n,
            out@ == protect_spec(v@).take(i as int),
        decreases n - i,
    {
        let c = v[i];
        let hit = c == '.' && i > 0 && i + 1 < n && digit(v[i - 1]) && digit(v[i + 1]);
        if hit {
            out.push(VERSION_DOT);
        } else {
            out.push(c);
        }
        proof {
            assert(out@ =~= protect_spec(v@).take(i + 1));
        }
        i = i + 1;
    }
    proof {
        assert(protect_spec(v@).take(n as int) =~= protect_spec(v@));
    }
    out
}

/// Replace every placeholder character in `input` with a dot.
pub fn restore_version_dots(input: &str) -> (r: String)
    ensures
        r@ == restore_spec(input@),
{
    let v = str_chars(input);
    let out = restore_chars(&v);
    chars_to_string(&out)
}

/// Replace every placeholder character in `v` with a dot.
pub(crate) fn restore_chars(v: &Vec<char>) -> (out: Vec<char>)
    ensures
        out@ == restore_spec(v@),
{
    let n = v.len();
    let mut out: Vec<char> = Vec::new();
    let mut i: usize = 0;
    while i < n
        invariant
            n == v@.len(),
            i <= n,
            out@ == restore_spec(v@).take(i as int),
        decreases n - i,
    {
        let c = v[i];
        if c == VERSION_DOT {
            out.push('.');
        } else {
            out.push(c);
        }
        proof {
            assert(out@ =~= restore_spec(v@).take(i + 1));
        }
        i = i + 1;
    }
    proof {
        assert(restore_spec(v@).take(n as int) =~= restore_spec(v@));
    }
    out
}

} // verus!
