//! Trusted boundary to Unicode-aware text operations.
//!
//! Transliteration to ASCII, the Unicode alphanumeric class, and Unicode
//! case mapping cannot reasonably be written out as specifications, so
//! their results are given names: uninterpreted spec functions that the
//! wrappers below tie to the outside calls. Everything downstream is
//! verified against those names.

use crate::chars::{ascii_alnum, is_ascii_alnum, str_chars};
use crate::VERSION_DOT;
use vstd::prelude::*;

verus! {

/// Replacement string that transliteration assigns to one character.
pub uninterp spec fn ascii_char_of(c: char) -> Seq<char>;

/// The transliteration of one character: ASCII characters pass through
/// unchanged, every other character is replaced by its named replacement.
pub open spec fn char_repl(c: char) -> Seq<char> {
    if (c as u32) < 0x80 {
        seq![c]
    } else {
        ascii_char_of(c)
    }
}

/// The transliteration of a whole text, character by character.
pub open spec fn ascii_of(s: Seq<char>) -> Seq<char>
    decreases s.len(),
{
    if s.len() == 0 {
        Seq::empty()
    } else {
        char_repl(s[0]) + ascii_of(s.drop_first())
    }
}

/// Transliterating one more character appends that character's replacement.
pub proof fn lemma_ascii_of_snoc(s: Seq<char>, c: char)
    ensures
        ascii_of(s.push(c)) == ascii_of(s) + char_repl(c),
    decreases s.len(),
{
    if s.len() == 0 {
        assert(s.push(c)[0] == c);
        assert(s.push(c).drop_first() =~= Seq::<char>::empty());
        assert(ascii_of(s.push(c)) == char_repl(c) + ascii_of(Seq::<char>::empty()));
        assert(ascii_of(s.push(c)) =~= ascii_of(s) + char_repl(c));
    } else {
        assert(s.push(c).drop_first() =~= s.drop_first().push(c));
        lemma_ascii_of_snoc(s.drop_first(), c);
        assert(ascii_of(s.push(c)) =~= ascii_of(s) + char_repl(c));
    }
}

/// Transliterating an all-ASCII text gives the text back.
pub proof fn lemma_ascii_of_identity(s: Seq<char>)
    requires
        forall|i: int| 0 <= i < s.len() ==> (s[i] as u32) < 0x80,
    ensures
        ascii_of(s) == s,
    decreases s.len(),
{
    if s.len() > 0 {
        lemma_ascii_of_identity(s.drop_first());
        assert(ascii_of(s) =~= s);
    } else {
        assert(ascii_of(s) =~= s);
    }
}

/// Relies on `any_ascii::any_ascii_char`: the replacement for a character
/// is drawn from static tables and depends on that character alone.
#[verifier::external_body]
fn ascii_char_repl(c: char) -> (r: &'static str)
    ensures
        r@ == ascii_char_of(c),
{
    any_ascii::any_ascii_char(c)
}

/// Transliterate `v` to ASCII, character by character.
pub fn transliterate(v: &Vec<char>) -> (r: Vec<char>)
    ensures
        r@ == ascii_of(v@),
{
    let n = v.len();
    let mut out: Vec<char> = Vec::new();
    let mut i: usize = 0;
    while i < n
        invariant
            n == v@.len(),
            i <= n,
            out@ == ascii_of(v@.take(i as int)),
        decreases n - i,
    {
        let c = v[i];
        proof {
            assert(v@.take(i + 1) =~= v@.take(i as int).push(v@[i as int]));
            lemma_ascii_of_snoc(v@.take(i as int), v@[i as int]);
        }
        if (c as u32) < 0x80 {
            out.push(c);
            proof {
                assert(out@ =~= ascii_of(v@.take(i + 1)));
            }
        } else {
            let piece = ascii_char_repl(c);
            let pv = str_chars(piece);
            let m = pv.len();
            let ghost base = out@;
            let mut k: usize = 0;
            while k < m
                invariant
                    m == pv@.len(),
                    k <= m,
                    out@ == base + pv@.take(k as int),
                decreases m - k,
            {
                out.push(pv[k]);
                proof {
                    assert(out@ =~= base + pv@.take(k + 1));
                }
                k = k + 1;
            }
            proof {
                assert(pv@.take(m as int) =~= pv@);
                assert(out@ =~= ascii_of(v@.take(i + 1)));
            }
        }
        i = i + 1;
    }
    proof {
        assert(v@.take(n as int) =~= v@);
    }
    out
}

/// Whether a character counts as alphanumeric for the Unicode-aware class.
pub uninterp spec fn unicode_alnum_ext(c: char) -> bool;

/// The Unicode alphanumeric class: on ASCII it holds exactly for letters
/// and digits; beyond ASCII it is named.
pub open spec fn unicode_alnum(c: char) -> bool {
    if (c as u32) < 0x80 {
        is_ascii_alnum(c)
    } else {
        unicode_alnum_ext(c)
    }
}

/// Relies on `char::is_alphanumeric`: true exactly for Unicode alphabetic
/// or numeric characters; among ASCII those are the letters and digits.
#[verifier::external_body]
pub(crate) fn alnum_char(c: char) -> (r: bool)
    ensures
        (c as u32) >= 0x80 ==> r == unicode_alnum_ext(c),
        r == unicode_alnum(c),
{
    c.is_alphanumeric()
}

/// Unicode lowercase form of a word.
pub uninterp spec fn lower_of(s: Seq<char>) -> Seq<char>;

/// Relies on `str::to_lowercase`: the result depends on the characters of
/// the input alone.
#[verifier::external_body]
pub(crate) fn lowercase_word(w: &Vec<char>) -> (r: Vec<char>)
    ensures
        r@ == lower_of(w@),
{
    let s: String = w.iter().collect();
    s.to_lowercase().chars().collect()
}

/// Unicode uppercase form of one character, possibly several characters long.
pub uninterp spec fn upper_of(c: char) -> Seq<char>;

/// Relies on `char::to_uppercase`: the result depends on the character alone.
#[verifier::external_body]
pub(crate) fn uppercase_char(c: char) -> (r: Vec<char>)
    ensures
        r@ == upper_of(c),
{
    c.to_uppercase().collect()
}

/// Decide whether `c` belongs to the word class: alphanumeric (Unicode-aware
/// when `uni` is set, ASCII-only otherwise) or the version-dot placeholder.
pub open spec fn is_word_char(c: char, uni: bool) -> bool {
    c == VERSION_DOT || (if uni {
        unicode_alnum(c)
    } else {
        is_ascii_alnum(c)
    })
}

/// Decide membership in the word class.
pub(crate) fn word_char(c: char, uni: bool) -> (r: bool)
    ensures
        r == is_word_char(c, uni),
{
    if c == VERSION_DOT {
        true
    } else if uni {
        alnum_char(c)
    } else {
        ascii_alnum(c)
    }
}

} // verus!
