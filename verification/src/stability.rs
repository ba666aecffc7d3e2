//! Structure of generated slug bases, and the laws built on it:
//! extension preservation and idempotence.
//!
//! A generated base consists of joined lowercase words in which every
//! restored version dot sits between two digits. These lemmas track that
//! structure through each pipeline stage, show that splitting a slug
//! recovers its base and extension, and conclude that slugifying a slug
//! changes nothing.

use crate::chars::{is_digit, lower_char};
use crate::split::{last_dot, lemma_last_dot, lemma_last_dot_unique, matches_suffix, split_point,
    suffix_tar_bz2, suffix_tar_gz, suffix_tar_xz, suffix_tar_zst};
use crate::unicode::is_word_char;
use crate::version::{protect_spec, protected_at, restore_spec};
use crate::words::{lemma_run_len, lemma_run_len_is, lower_word, lower_words, run_len, sep_join,
    words_spec};
use crate::split::{is_pure_dotfile, split_base, split_ext};
use crate::slug::{base_words, debracket_spec, joined_words, slug_base_spec, slug_spec,
    translit_spec};
use crate::chars::byte_len;
use crate::truncate::truncate_spec;
use crate::words::{join_spec, lemma_words_wf};
use crate::laws::{lemma_join_chars, lemma_lower_words_chars, lemma_slug_char_ok_safe,
    slug_char_ok};
use crate::MAX_FILENAME_BYTES;
use crate::{SlugifyOptions, Style, VERSION_DOT};
use vstd::prelude::*;

verus! {

/// `s` does not contain the reserved placeholder character.
pub open spec fn ph_free(s: Seq<char>) -> bool {
    forall|i: int| 0 <= i < s.len() ==> s[i] != VERSION_DOT
}

/// Every placeholder in `s` sits strictly inside, between two digits.
pub open spec fn ph_interior(s: Seq<char>) -> bool {
    forall|i: int|
        0 <= i < s.len() && #[trigger] s[i] == VERSION_DOT ==> 0 < i && i + 1 < s.len()
            && is_digit(s[i - 1]) && is_digit(s[i + 1])
}

/// Every dot of `s` past position zero sits strictly inside, between two
/// digits.
pub open spec fn dots_ok(s: Seq<char>) -> bool {
    forall|i: int|
        0 < i < s.len() && #[trigger] s[i] == '.' ==> i + 1 < s.len() && is_digit(s[i - 1])
            && is_digit(s[i + 1])
}

/// Every dot of `s` past position zero has a digit before it, and a
/// digit after it unless it is the final character (as after a
/// truncation cut).
pub open spec fn dots_ok_weak(s: Seq<char>) -> bool {
    forall|i: int|
        0 < i < s.len() && #[trigger] s[i] == '.' ==> is_digit(s[i - 1]) && (i + 1 < s.len()
            ==> is_digit(s[i + 1]))
}

/// The strong dot condition implies the weak one.
pub proof fn lemma_dots_ok_weaken(s: Seq<char>)
    requires
        dots_ok(s),
    ensures
        dots_ok_weak(s),
{
}

/// Protecting a placeholder-free text leaves every placeholder it
/// introduces between two digits.
pub proof fn lemma_protect_ph(s: Seq<char>)
    requires
        ph_free(s),
    ensures
        ph_interior(protect_spec(s)),
{
    let p = protect_spec(s);
    assert forall|i: int| 0 <= i < p.len() && #[trigger] p[i] == VERSION_DOT implies 0 < i && i + 1 < p.len()
        && is_digit(p[i - 1]) && is_digit(p[i + 1]) by {
        assert(protected_at(s, i));
        assert(p[i - 1] == (if protected_at(s, i - 1) {
            VERSION_DOT
        } else {
            s[i - 1]
        }));
        assert(p[i + 1] == (if protected_at(s, i + 1) {
            VERSION_DOT
        } else {
            s[i + 1]
        }));
    }
}

/// Each word of a text with interior placeholders again has interior
/// placeholders.
pub proof fn lemma_words_ph(s: Seq<char>, uni: bool)
    requires
        ph_interior(s),
    ensures
        forall|k: int| 0 <= k < words_spec(s, uni).len() ==> ph_interior(words_spec(s, uni)[k]),
    decreases s.len(),
{
    if s.len() == 0 {
    } else if !is_word_char(s[0], uni) {
        let t = s.drop_first();
        assert forall|i: int| 0 <= i < t.len() && #[trigger] t[i] == VERSION_DOT implies 0 < i && i + 1
            < t.len() && is_digit(t[i - 1]) && is_digit(t[i + 1]) by {
            assert(t[i] == s[i + 1]);
            assert(is_digit(s[i]) && is_digit(s[i + 2]));
            if i == 0 {
                assert(is_word_char(s[0], uni));
            }
            assert(t[i - 1] == s[i]);
            assert(t[i + 1] == s[i + 2]);
        }
        lemma_words_ph(t, uni);
        assert(words_spec(s, uni) == words_spec(t, uni));
    } else {
        lemma_run_len(s, uni);
        let m = run_len(s, uni);
        let w = s.take(m);
        let t = s.skip(m);
        assert forall|i: int| 0 <= i < w.len() && #[trigger] w[i] == VERSION_DOT implies 0 < i && i + 1
            < w.len() && is_digit(w[i - 1]) && is_digit(w[i + 1]) by {
            assert(w[i] == s[i]);
            assert(0 < i && i + 1 < s.len() && is_digit(s[i - 1]) && is_digit(s[i + 1]));
            if i + 1 == m {
                assert(m < s.len());
                assert(is_word_char(s[m], uni));
            }
            assert(w[i - 1] == s[i - 1]);
            assert(w[i + 1] == s[i + 1]);
        }
        assert forall|i: int| 0 <= i < t.len() && #[trigger] t[i] == VERSION_DOT implies 0 < i && i + 1
            < t.len() && is_digit(t[i - 1]) && is_digit(t[i + 1]) by {
            assert(t[i] == s[m + i]);
            assert(is_digit(s[m + i - 1]) && is_digit(s[m + i + 1]));
            if i == 0 {
                assert(is_word_char(s[m], uni));
            }
            assert(t[i - 1] == s[m + i - 1]);
            assert(t[i + 1] == s[m + i + 1]);
        }
        lemma_words_ph(t, uni);
        assert forall|k: int| 0 <= k < words_spec(s, uni).len() implies ph_interior(
            words_spec(s, uni)[k],
        ) by {
            if k == 0 {
                assert(words_spec(s, uni)[0] == w);
            } else {
                assert(words_spec(s, uni)[k] == words_spec(t, uni)[k - 1]);
            }
        }
    }
}

/// ASCII lowercasing does not create, move, or uncover placeholders or
/// digits.
pub proof fn lemma_lower_ph(w: Seq<char>)
    requires
        ph_interior(w),
    ensures
        ph_interior(lower_word(w, false)),
        lower_word(w, false).len() == w.len(),
{
    let lw = lower_word(w, false);
    assert forall|i: int| 0 <= i < lw.len() && #[trigger] lw[i] == VERSION_DOT implies 0 < i && i + 1
        < lw.len() && is_digit(lw[i - 1]) && is_digit(lw[i + 1]) by {
        assert(lw[i] == lower_char(w[i]));
        assert(w[i] == VERSION_DOT);
        assert(lw[i - 1] == lower_char(w[i - 1]));
        assert(lw[i + 1] == lower_char(w[i + 1]));
    }
}

/// A separator join of words with interior placeholders again has
/// interior placeholders.
pub proof fn lemma_sep_join_ph(ws: Seq<Seq<char>>, sep: char)
    requires
        sep != VERSION_DOT,
        forall|k: int| 0 <= k < ws.len() ==> ph_interior(ws[k]),
    ensures
        ph_interior(sep_join(ws, sep)),
    decreases ws.len(),
{
    if ws.len() == 0 {
    } else if ws.len() == 1 {
        assert(sep_join(ws, sep) == ws[0]);
    } else {
        assert forall|k: int| 0 <= k < ws.drop_first().len() implies ph_interior(
            ws.drop_first()[k],
        ) by {
            assert(ws.drop_first()[k] == ws[k + 1]);
        }
        lemma_sep_join_ph(ws.drop_first(), sep);
        let j = sep_join(ws, sep);
        let w0 = ws[0];
        let rest = sep_join(ws.drop_first(), sep);
        assert forall|i: int| 0 <= i < j.len() && #[trigger] j[i] == VERSION_DOT implies 0 < i && i + 1
            < j.len() && is_digit(j[i - 1]) && is_digit(j[i + 1]) by {
            if i < w0.len() {
                assert(j[i] == w0[i]);
                assert(0 < i && i + 1 < w0.len());
                assert(j[i - 1] == w0[i - 1]);
                assert(j[i + 1] == w0[i + 1]);
            } else if i == w0.len() {
                assert(j[i] == sep);
            } else {
                let t = i - w0.len() - 1;
                assert(j[i] == rest[t]);
                assert(0 < t && t + 1 < rest.len());
                assert(j[i - 1] == rest[t - 1]);
                assert(j[i + 1] == rest[t + 1]);
            }
        }
    }
}

/// Restoring a dot-free text with interior placeholders yields a
/// placeholder-free text whose dots all sit between digits, away from
/// both ends.
pub proof fn lemma_restore_structure(j: Seq<char>)
    requires
        ph_interior(j),
        forall|i: int| 0 <= i < j.len() ==> j[i] != '.',
    ensures
        ph_free(restore_spec(j)),
        forall|i: int|
            0 <= i < j.len() && #[trigger] restore_spec(j)[i] == '.' ==> 0 < i && i + 1 < j.len()
                && is_digit(restore_spec(j)[i - 1]) && is_digit(restore_spec(j)[i + 1]),
        forall|i: int|
            0 <= i < j.len() && #[trigger] restore_spec(j)[i] != '.' ==> restore_spec(j)[i] == j[i],
{
    let r = restore_spec(j);
    assert forall|i: int| 0 <= i < j.len() && #[trigger] r[i] == '.' implies 0 < i && i + 1 < j.len()
        && is_digit(r[i - 1]) && is_digit(r[i + 1]) by {
        assert(j[i] == VERSION_DOT);
        assert(r[i - 1] == (if j[i - 1] == VERSION_DOT {
            '.'
        } else {
            j[i - 1]
        }));
        assert(r[i + 1] == (if j[i + 1] == VERSION_DOT {
            '.'
        } else {
            j[i + 1]
        }));
    }
}


/// Segmenting a separator join of word-character words recovers exactly
/// those words.
pub proof fn lemma_words_sep_join(ws: Seq<Seq<char>>, sep: char, uni: bool)
    requires
        !is_word_char(sep, uni),
        forall|k: int| 0 <= k < ws.len() ==> ws[k].len() > 0,
        forall|k: int, i: int|
            0 <= k < ws.len() && 0 <= i < ws[k].len() ==> is_word_char(ws[k][i], uni),
    ensures
        words_spec(sep_join(ws, sep), uni) == ws,
    decreases ws.len(),
{
    if ws.len() == 0 {
        assert(words_spec(sep_join(ws, sep), uni) =~= ws);
    } else if ws.len() == 1 {
        let j = sep_join(ws, sep);
        assert(j == ws[0]);
        assert(is_word_char(j[0], uni));
        lemma_run_len_is(j, uni, j.len() as int);
        assert(j.take(j.len() as int) =~= j);
        assert(j.skip(j.len() as int) =~= Seq::<char>::empty());
        assert(words_spec(j, uni) == seq![j.take(j.len() as int)] + words_spec(
            j.skip(j.len() as int),
            uni,
        ));
        assert(words_spec(Seq::<char>::empty(), uni) =~= Seq::<Seq<char>>::empty());
        assert(words_spec(j, uni) =~= ws);
    } else {
        let j = sep_join(ws, sep);
        let w0 = ws[0];
        let m = w0.len() as int;
        let rest = sep_join(ws.drop_first(), sep);
        assert(j == w0 + seq![sep] + rest);
        assert forall|i: int| 0 <= i < m implies is_word_char(j[i], uni) by {
            assert(j[i] == w0[i]);
        }
        assert(j[m] == sep);
        lemma_run_len_is(j, uni, m);
        assert(j.take(m) =~= w0);
        let t = j.skip(m);
        assert(t[0] == sep);
        assert(t.drop_first() =~= rest);
        assert forall|k: int| 0 <= k < ws.drop_first().len() implies ws.drop_first()[k].len()
            > 0 by {
            assert(ws.drop_first()[k] == ws[k + 1]);
        }
        assert forall|k: int, i: int|
            0 <= k < ws.drop_first().len() && 0 <= i
                < ws.drop_first()[k].len() implies is_word_char(ws.drop_first()[k][i], uni) by {
            assert(ws.drop_first()[k] == ws[k + 1]);
        }
        lemma_words_sep_join(ws.drop_first(), sep, uni);
        assert(words_spec(t, uni) == words_spec(rest, uni));
        assert(words_spec(j, uni) == seq![w0] + words_spec(rest, uni));
        assert(words_spec(j, uni) =~= ws);
    }
}

/// Protecting a generated base re-protects exactly the restored version
/// dots: the leading dot of a dotfile stays, every other dot becomes the
/// placeholder again.
pub proof fn lemma_protect_of_slug_base(j: Seq<char>, dotp: bool)
    requires
        ph_interior(j),
        forall|i: int| 0 <= i < j.len() ==> j[i] != '.',
    ensures
        protect_spec(
            if dotp {
                seq!['.'] + restore_spec(j)
            } else {
                restore_spec(j)
            },
        ) == if dotp {
            seq!['.'] + j
        } else {
            j
        },
{
    lemma_restore_structure(j);
    let r = restore_spec(j);
    let d = if dotp {
        seq!['.'] + r
    } else {
        r
    };
    let target = if dotp {
        seq!['.'] + j
    } else {
        j
    };
    let off: int = if dotp {
        1
    } else {
        0
    };
    assert forall|i: int| 0 <= i < d.len() implies protect_spec(d)[i] == target[i] by {
        if dotp && i == 0 {
            assert(d[0] == '.');
            assert(!protected_at(d, 0));
        } else {
            let q = i - off;
            assert(d[i] == r[q]);
            assert(target[i] == j[q]);
            if r[q] == '.' {
                assert(0 < q && q + 1 < j.len() && is_digit(r[q - 1]) && is_digit(r[q + 1]));
                assert(d[i - 1] == r[q - 1]);
                assert(d[i + 1] == r[q + 1]);
                assert(protected_at(d, i));
                assert(j[q] == VERSION_DOT);
            } else {
                assert(r[q] == j[q]);
                assert(!protected_at(d, i));
            }
        }
    }
    assert(protect_spec(d) =~= target);
}

/// The whole name is nothing but a compound extension.
pub open spec fn whole_compound(s: Seq<char>) -> bool {
    ||| (s.len() == 7 && matches_suffix(s, suffix_tar_gz()))
    ||| (s.len() == 8 && matches_suffix(s, suffix_tar_bz2()))
    ||| (s.len() == 7 && matches_suffix(s, suffix_tar_xz()))
    ||| (s.len() == 8 && matches_suffix(s, suffix_tar_zst()))
}

/// `e` has the shape of a compound extension.
pub open spec fn compound_ext(e: Seq<char>) -> bool {
    ||| (e.len() == 7 && matches_suffix(e, suffix_tar_gz()))
    ||| (e.len() == 8 && matches_suffix(e, suffix_tar_bz2()))
    ||| (e.len() == 7 && matches_suffix(e, suffix_tar_xz()))
    ||| (e.len() == 8 && matches_suffix(e, suffix_tar_zst()))
}

/// Lowercasing maps a character to a dot only if it was one.
proof fn lemma_lower_dot(c: char)
    ensures
        (lower_char(c) == '.') == (c == '.'),
{
}

/// A name made of a structured base and a well-shaped extension splits
/// back at the base-extension boundary, unless the whole name is nothing
/// but a compound extension.
pub proof fn lemma_split_of_slug(d: Seq<char>, e: Seq<char>)
    requires
        d.len() > 0,
        dots_ok_weak(d),
        e.len() == 0 ==> forall|i: int| 0 <= i < d.len() ==> d[i] != '.',
        e.len() > 0 ==> e[0] == '.',
        (forall|i: int| 1 <= i < e.len() ==> e[i] != '.') || compound_ext(e),
        !whole_compound(d + e),
    ensures
        split_point(d + e) == d.len(),
{
    let s = d + e;
    let ln = s.len() as int;
    let dl = d.len() as int;
    lemma_last_dot(s);
    if e.len() == 0 {
        assert(s =~= d);
        assert(!is_pure_dotfile(s));
        if matches_suffix(s, suffix_tar_gz()) {
            assert(lower_char(s[ln - 7]) == '.');
            assert(s[ln - 7] == '.');
            assert(false);
        }
        if matches_suffix(s, suffix_tar_bz2()) {
            assert(lower_char(s[ln - 8]) == '.');
            assert(false);
        }
        if matches_suffix(s, suffix_tar_xz()) {
            assert(lower_char(s[ln - 7]) == '.');
            assert(false);
        }
        if matches_suffix(s, suffix_tar_zst()) {
            assert(lower_char(s[ln - 8]) == '.');
            assert(false);
        }
        if last_dot(s) >= 1 {
            assert(s[last_dot(s)] == '.');
            assert(false);
        }
    } else {
        assert(s[dl] == e[0]);
        assert(s[dl] == '.');
        assert(dl >= 1);
        assert(!is_pure_dotfile(s)) by {
            if last_dot(s) == -1 {
                assert(s[dl] != '.');
            }
        }
        if compound_ext(e) {
            let el = e.len() as int;
            if e.len() == 7 && matches_suffix(e, suffix_tar_gz()) {
                assert forall|i: int| 0 <= i < 7 implies lower_char(s[ln - 7 + i])
                    == suffix_tar_gz()[i] by {
                    assert(s[ln - 7 + i] == e[i]);
                }
                assert(matches_suffix(s, suffix_tar_gz()));
                assert(split_point(s) == ln - 7);
            } else if e.len() == 8 && matches_suffix(e, suffix_tar_bz2()) {
                assert forall|i: int| 0 <= i < 8 implies lower_char(s[ln - 8 + i])
                    == suffix_tar_bz2()[i] by {
                    assert(s[ln - 8 + i] == e[i]);
                }
                assert(matches_suffix(s, suffix_tar_bz2()));
                if matches_suffix(s, suffix_tar_gz()) {
                    assert(lower_char(s[ln - 1]) == suffix_tar_gz()[6]);
                    assert(lower_char(s[ln - 1]) == suffix_tar_bz2()[7]);
                    assert(false);
                }
                assert(split_point(s) == ln - 8);
            } else if e.len() == 7 && matches_suffix(e, suffix_tar_xz()) {
                assert forall|i: int| 0 <= i < 7 implies lower_char(s[ln - 7 + i])
                    == suffix_tar_xz()[i] by {
                    assert(s[ln - 7 + i] == e[i]);
                }
                assert(matches_suffix(s, suffix_tar_xz()));
                if matches_suffix(s, suffix_tar_gz()) {
                    assert(lower_char(s[ln - 2]) == suffix_tar_gz()[5]);
                    assert(lower_char(s[ln - 2]) == suffix_tar_xz()[5]);
                    assert(false);
                }
                if matches_suffix(s, suffix_tar_bz2()) {
                    assert(lower_char(s[ln - 1]) == suffix_tar_bz2()[7]);
                    assert(lower_char(s[ln - 1]) == suffix_tar_xz()[6]);
                    assert(false);
                }
                assert(split_point(s) == ln - 7);
            } else {
                assert(e.len() == 8 && matches_suffix(e, suffix_tar_zst()));
                assert forall|i: int| 0 <= i < 8 implies lower_char(s[ln - 8 + i])
                    == suffix_tar_zst()[i] by {
                    assert(s[ln - 8 + i] == e[i]);
                }
                assert(matches_suffix(s, suffix_tar_zst()));
                if matches_suffix(s, suffix_tar_gz()) {
                    assert(lower_char(s[ln - 1]) == suffix_tar_gz()[6]);
                    assert(lower_char(s[ln - 1]) == suffix_tar_zst()[7]);
                    assert(false);
                }
                if matches_suffix(s, suffix_tar_bz2()) {
                    assert(lower_char(s[ln - 1]) == suffix_tar_bz2()[7]);
                    assert(lower_char(s[ln - 1]) == suffix_tar_zst()[7]);
                    assert(false);
                }
                if matches_suffix(s, suffix_tar_xz()) {
                    assert(lower_char(s[ln - 1]) == suffix_tar_xz()[6]);
                    assert(lower_char(s[ln - 1]) == suffix_tar_zst()[7]);
                    assert(false);
                }
                assert(split_point(s) == ln - 8);
            }
        } else {
            assert(forall|i: int| 1 <= i < e.len() ==> e[i] != '.');
            assert forall|suf: Seq<char>|
                (suf == suffix_tar_gz() || suf == suffix_tar_bz2() || suf == suffix_tar_xz()
                    || suf == suffix_tar_zst()) implies !matches_suffix(s, suf) by {
                if matches_suffix(s, suf) {
                    let sl = suf.len() as int;
                    let q = ln - sl;
                    assert(suf[0] == '.');
                    assert(lower_char(s[q]) == suf[0]);
                    assert(s[q] == '.');
                    if q == 0 {
                        assert(whole_compound(s));
                        assert(false);
                    } else if q < dl {
                        assert(d[q] == '.');
                        assert(suf[1] == 't');
                        assert(lower_char(s[q + 1]) == 't');
                        if q + 1 < dl {
                            assert(is_digit(d[q + 1]));
                            assert(s[q + 1] == d[q + 1]);
                            assert(false);
                        } else {
                            assert(s[q + 1] == e[0]);
                            assert(false);
                        }
                    } else if q == dl {
                        assert(suf[4] == '.');
                        assert(lower_char(s[q + 4]) == '.');
                        assert(s[q + 4] == '.');
                        assert(s[dl + 4] == e[4]);
                        assert(false);
                    } else {
                        assert(s[q] == e[q - dl]);
                        assert(q - dl >= 1);
                        assert(false);
                    }
                }
            }
            assert(!matches_suffix(s, suffix_tar_gz()));
            assert(!matches_suffix(s, suffix_tar_bz2()));
            assert(!matches_suffix(s, suffix_tar_xz()));
            assert(!matches_suffix(s, suffix_tar_zst()));
            assert forall|i: int| dl < i < ln implies s[i] != '.' by {
                assert(s[i] == e[i - dl]);
            }
            lemma_last_dot_unique(s, dl);
            assert(split_point(s) == dl);
        }
    }
}


/// Capitalizing keeps interior placeholders interior (ASCII mode).
proof fn lemma_cap_word_ph(w: Seq<char>)
    requires
        ph_interior(w),
    ensures
        ph_interior(crate::words::cap_word(w, false)),
        crate::words::cap_word(w, false).len() == w.len(),
{
    let cw = crate::words::cap_word(w, false);
    if w.len() > 0 {
        assert forall|i: int| 0 <= i < cw.len() && #[trigger] cw[i] == VERSION_DOT implies 0 < i
            && i + 1 < cw.len() && is_digit(cw[i - 1]) && is_digit(cw[i + 1]) by {
            if i == 0 {
                assert(cw[0] == crate::chars::upper_char(w[0]));
                assert(w[0] != VERSION_DOT);
            } else {
                assert(cw[i] == w[i]);
                if i == 1 {
                    assert(cw[0] == crate::chars::upper_char(w[0]));
                    assert(is_digit(w[0]));
                } else {
                    assert(cw[i - 1] == w[i - 1]);
                }
                assert(cw[i + 1] == w[i + 1]);
            }
        }
    }
}

/// A capitalized concatenation of words with interior placeholders again
/// has interior placeholders (ASCII mode).
proof fn lemma_caps_concat_ph(ws: Seq<Seq<char>>)
    requires
        forall|k: int| 0 <= k < ws.len() ==> ph_interior(ws[k]),
    ensures
        ph_interior(crate::words::caps_concat(ws, false)),
    decreases ws.len(),
{
    if ws.len() > 0 {
        assert forall|k: int| 0 <= k < ws.drop_first().len() implies ph_interior(
            ws.drop_first()[k],
        ) by {
            assert(ws.drop_first()[k] == ws[k + 1]);
        }
        lemma_caps_concat_ph(ws.drop_first());
        lemma_cap_word_ph(ws[0]);
        let j = crate::words::caps_concat(ws, false);
        let head = crate::words::cap_word(ws[0], false);
        let rest = crate::words::caps_concat(ws.drop_first(), false);
        assert forall|i: int| 0 <= i < j.len() && #[trigger] j[i] == VERSION_DOT implies 0 < i && i
            + 1 < j.len() && is_digit(j[i - 1]) && is_digit(j[i + 1]) by {
            if i < head.len() {
                assert(j[i] == head[i]);
                assert(j[i - 1] == head[i - 1]);
                assert(j[i + 1] == head[i + 1]);
            } else {
                let t = i - head.len();
                assert(j[i] == rest[t]);
                assert(j[i - 1] == rest[t - 1]);
                assert(j[i + 1] == rest[t + 1]);
            }
        }
    }
}

/// A join in any style keeps interior placeholders interior (ASCII mode).
pub proof fn lemma_join_ph(ws: Seq<Seq<char>>, style: Style)
    requires
        forall|k: int| 0 <= k < ws.len() ==> ph_interior(ws[k]),
    ensures
        ph_interior(crate::words::join_spec(ws, style, false)),
{
    match style {
        Style::Kebab => {
            lemma_sep_join_ph(ws, '-');
        },
        Style::Snake => {
            lemma_sep_join_ph(ws, '_');
        },
        Style::Camel => {
            if ws.len() > 0 {
                assert forall|k: int| 0 <= k < ws.drop_first().len() implies ph_interior(
                    ws.drop_first()[k],
                ) by {
                    assert(ws.drop_first()[k] == ws[k + 1]);
                }
                lemma_caps_concat_ph(ws.drop_first());
                let j = crate::words::join_spec(ws, style, false);
                let w0 = ws[0];
                let rest = crate::words::caps_concat(ws.drop_first(), false);
                assert forall|i: int| 0 <= i < j.len() && #[trigger] j[i] == VERSION_DOT implies 0
                    < i && i + 1 < j.len() && is_digit(j[i - 1]) && is_digit(j[i + 1]) by {
                    if i < w0.len() {
                        assert(j[i] == w0[i]);
                        assert(j[i - 1] == w0[i - 1]);
                        assert(j[i + 1] == w0[i + 1]);
                    } else {
                        let t = i - w0.len();
                        assert(j[i] == rest[t]);
                        assert(j[i - 1] == rest[t - 1]);
                        assert(j[i + 1] == rest[t + 1]);
                    }
                }
            }
        },
        Style::Pascal => {
            lemma_caps_concat_ph(ws);
        },
    }
}

/// The extension a split yields is empty, or starts with a dot and is
/// either dot-free past that or a compound extension.
pub proof fn lemma_split_ext_shape(f: Seq<char>)
    ensures
        split_ext(f).len() > 0 ==> split_ext(f)[0] == '.',
        split_ext(f).len() > 0 ==> (forall|i: int| 1 <= i < split_ext(f).len() ==> split_ext(
            f,
        )[i] != '.') || compound_ext(split_ext(f)),
{
    lemma_last_dot(f);
    let e = split_ext(f);
    let ln = f.len() as int;
    if e.len() > 0 {
        if is_pure_dotfile(f) {
            assert(e =~= f);
            assert forall|i: int| 1 <= i < e.len() implies e[i] != '.' by {
                assert(e[i] == f[i]);
            }
        } else if matches_suffix(f, suffix_tar_gz()) {
            assert forall|i: int| 0 <= i < 7 implies lower_char(e[i]) == suffix_tar_gz()[i] by {
                assert(e[i] == f[ln - 7 + i]);
            }
            assert(compound_ext(e));
            assert(lower_char(e[0]) == '.');
            assert(e[0] == '.');
        } else if matches_suffix(f, suffix_tar_bz2()) {
            assert forall|i: int| 0 <= i < 8 implies lower_char(e[i]) == suffix_tar_bz2()[i] by {
                assert(e[i] == f[ln - 8 + i]);
            }
            assert(compound_ext(e));
            assert(lower_char(e[0]) == '.');
            assert(e[0] == '.');
        } else if matches_suffix(f, suffix_tar_xz()) {
            assert forall|i: int| 0 <= i < 7 implies lower_char(e[i]) == suffix_tar_xz()[i] by {
                assert(e[i] == f[ln - 7 + i]);
            }
            assert(compound_ext(e));
            assert(lower_char(e[0]) == '.');
            assert(e[0] == '.');
        } else if matches_suffix(f, suffix_tar_zst()) {
            assert forall|i: int| 0 <= i < 8 implies lower_char(e[i]) == suffix_tar_zst()[i] by {
                assert(e[i] == f[ln - 8 + i]);
            }
            assert(compound_ext(e));
            assert(lower_char(e[0]) == '.');
            assert(e[0] == '.');
        } else if last_dot(f) >= 1 {
            assert(e[0] == f[last_dot(f)]);
            assert forall|i: int| 1 <= i < e.len() implies e[i] != '.' by {
                assert(e[i] == f[last_dot(f) + i]);
            }
        } else {
            assert(e.len() == 0);
        }
    }
}

/// Words of a placeholder-free text are placeholder-free.
pub proof fn lemma_words_ph_free(s: Seq<char>, uni: bool)
    requires
        ph_free(s),
    ensures
        forall|k: int| 0 <= k < words_spec(s, uni).len() ==> ph_free(words_spec(s, uni)[k]),
    decreases s.len(),
{
    if s.len() == 0 {
    } else if !is_word_char(s[0], uni) {
        let t = s.drop_first();
        assert forall|i: int| 0 <= i < t.len() implies t[i] != VERSION_DOT by {
            assert(t[i] == s[i + 1]);
        }
        lemma_words_ph_free(t, uni);
        assert(words_spec(s, uni) == words_spec(t, uni));
        assert forall|k: int| 0 <= k < words_spec(s, uni).len() implies ph_free(
            words_spec(s, uni)[k],
        ) by {
            assert(words_spec(s, uni)[k] == words_spec(t, uni)[k]);
        }
    } else {
        lemma_run_len(s, uni);
        let m = run_len(s, uni);
        let w = s.take(m);
        let t = s.skip(m);
        assert forall|i: int| 0 <= i < t.len() implies t[i] != VERSION_DOT by {
            assert(t[i] == s[m + i]);
        }
        lemma_words_ph_free(t, uni);
        assert forall|k: int| 0 <= k < words_spec(s, uni).len() implies ph_free(
            words_spec(s, uni)[k],
        ) by {
            if k == 0 {
                assert(words_spec(s, uni)[0] == w);
                assert forall|i: int| 0 <= i < w.len() implies w[i] != VERSION_DOT by {
                    assert(w[i] == s[i]);
                }
            } else {
                assert(words_spec(s, uni)[k] == words_spec(t, uni)[k - 1]);
            }
        }
    }
}


/// A separator join of placeholder-free words is placeholder-free.
proof fn lemma_sep_join_ph_free(ws: Seq<Seq<char>>, sep: char)
    requires
        sep != VERSION_DOT,
        forall|k: int| 0 <= k < ws.len() ==> ph_free(ws[k]),
    ensures
        ph_free(sep_join(ws, sep)),
    decreases ws.len(),
{
    if ws.len() == 0 {
    } else if ws.len() == 1 {
        assert(sep_join(ws, sep) == ws[0]);
    } else {
        assert forall|k: int| 0 <= k < ws.drop_first().len() implies ph_free(
            ws.drop_first()[k],
        ) by {
            assert(ws.drop_first()[k] == ws[k + 1]);
        }
        lemma_sep_join_ph_free(ws.drop_first(), sep);
        let j = sep_join(ws, sep);
        let w0 = ws[0];
        let rest = sep_join(ws.drop_first(), sep);
        assert forall|i: int| 0 <= i < j.len() implies j[i] != VERSION_DOT by {
            if i < w0.len() {
                assert(j[i] == w0[i]);
            } else if i == w0.len() {
                assert(j[i] == sep);
            } else {
                assert(j[i] == rest[i - w0.len() - 1]);
            }
        }
    }
}

/// Splitting an extension-shaped name leaves it whole: its own base is
/// empty and its extension is itself.
pub proof fn lemma_split_ext_of_ext(e: Seq<char>)
    requires
        e.len() > 0 ==> e[0] == '.',
        (forall|i: int| 1 <= i < e.len() ==> e[i] != '.') || compound_ext(e),
        !whole_compound(e),
    ensures
        split_base(e).len() == 0,
        split_ext(e) == e,
{
    lemma_last_dot(e);
    if e.len() == 0 {
        assert(split_point(e) == 0);
        assert(split_ext(e) =~= e);
    } else if compound_ext(e) {
        assert(whole_compound(e));
        assert(false);
    } else {
        if last_dot(e) >= 1 {
            assert(e[last_dot(e)] == '.');
            assert(false);
        }
        assert(is_pure_dotfile(e));
        assert(split_point(e) == 0);
        assert(split_base(e) =~= Seq::<char>::empty());
        assert(split_ext(e) =~= e);
    }
}

/// **Extension preservation law.** With Unicode transliterated away, the
/// slug of a name splits into the same extension as the name itself —
/// unless the slug collapses to nothing but a compound extension, and
/// granting the reserved-placeholder invariant on the pipeline input.
pub proof fn lemma_slug_ext_preserved(f: Seq<char>, o: SlugifyOptions)
    requires
        !o.keep_unicode,
        ph_free(debracket_spec(translit_spec(split_base(f), false))),
        split_ext(f).len() == 0 ==> (forall|i: int|
            0 <= i < debracket_spec(translit_spec(split_base(f), false)).len()
                ==> debracket_spec(translit_spec(split_base(f), false))[i] != '.'),
        !whole_compound(slug_spec(f, o)),
    ensures
        split_ext(slug_spec(f, o)) == split_ext(f),
{
    let base = split_base(f);
    let ext = split_ext(f);
    let slug = slug_spec(f, o);
    lemma_split_ext_shape(f);
    if base.len() == 0 {
    } else {
        let pin = debracket_spec(translit_spec(base, false));
        let p = protect_spec(pin);
        let ws = base_words(base, o);
        if ws.len() == 0 {
            assert(slug == ext);
            lemma_split_ext_of_ext(ext);
        } else {
            let lws = lower_words(ws, false);
            let j = join_spec(lws, o.style, false);
            let rj = restore_spec(j);
            let d = slug_base_spec(f, o);
            let dotp = base[0] == '.';
            lemma_protect_ph(pin);
            lemma_words_ph(p, false);
            lemma_words_wf(p, false);
            assert forall|k: int| 0 <= k < lws.len() implies ph_interior(lws[k])
                && lws[k].len() == ws[k].len() by {
                assert(lws[k] == lower_word(ws[k], false));
                lemma_lower_ph(ws[k]);
            }
            lemma_join_ph(lws, o.style);
            lemma_lower_words_chars(ws);
            lemma_join_chars(lws, o.style);
            assert forall|i: int| 0 <= i < j.len() implies j[i] != '.' by {
                assert(is_word_char(j[i], false) || j[i] == '-' || j[i] == '_');
            }
            lemma_restore_structure(j);
            assert(rj == joined_words(ws, o));
            assert(d == (if dotp {
                seq!['.'] + rj
            } else {
                rj
            }));
            assert forall|i: int| 0 < i < d.len() && #[trigger] d[i] == '.' implies i + 1 < d.len()
                && is_digit(d[i - 1]) && is_digit(d[i + 1]) by {
                if dotp {
                    let q = i - 1;
                    assert(d[i] == rj[q]);
                    assert(0 < q && q + 1 < j.len());
                    assert(d[i - 1] == rj[q - 1]);
                    assert(d[i + 1] == rj[q + 1]);
                } else {
                    assert(0 < i && i + 1 < j.len());
                }
            }
            assert(dots_ok(d));
            if ext.len() == 0 {
                assert(forall|i: int| 0 <= i < pin.len() ==> pin[i] != '.');
                assert(p =~= pin) by {
                    assert forall|i: int| 0 <= i < pin.len() implies protect_spec(pin)[i]
                        == pin[i] by {
                        assert(!protected_at(pin, i));
                    }
                }
                lemma_words_ph_free(p, false);
                assert forall|k: int| 0 <= k < lws.len() implies ph_free(lws[k]) by {
                    assert(lws[k] == lower_word(ws[k], false));
                    assert forall|i: int| 0 <= i < lws[k].len() implies lws[k][i]
                        != VERSION_DOT by {
                        assert(lws[k][i] == lower_char(ws[k][i]));
                        assert(ws[k][i] != VERSION_DOT);
                    }
                }
                assert(o.style == Style::Kebab || o.style == Style::Snake || o.style
                    == Style::Camel || o.style == Style::Pascal);
                if o.style == Style::Kebab {
                    lemma_sep_join_ph_free(lws, '-');
                } else if o.style == Style::Snake {
                    lemma_sep_join_ph_free(lws, '_');
                } else {
                    lemma_caps_ph_free(lws);
                }
                assert(ph_free(j));
                assert forall|i: int| 0 <= i < rj.len() implies rj[i] != '.' by {
                    assert(rj[i] == (if j[i] == VERSION_DOT {
                        '.'
                    } else {
                        j[i]
                    }));
                }
                assert(!dotp) by {
                    if dotp {
                        lemma_last_dot(f);
                        assert(f[0] == base[0]);
                        assert(split_point(f) == f.len());
                        assert(!is_pure_dotfile(f));
                        assert(last_dot(f) >= 1);
                        assert(false);
                    }
                }
            }
            let t = truncate_spec(d, ext, MAX_FILENAME_BYTES as nat);
            assert(slug == t + ext);
            if t.len() == 0 {
                assert(slug =~= ext);
                lemma_split_ext_of_ext(ext);
            } else {
                let budget = if byte_len(ext) > MAX_FILENAME_BYTES as nat {
                    0nat
                } else {
                    (MAX_FILENAME_BYTES as nat - byte_len(ext)) as nat
                };
                crate::truncate::lemma_fit_chars(d, budget);
                assert(t.len() <= d.len() && (forall|i: int| 0 <= i < t.len() ==> t[i] == d[i]))
                    by {
                    if byte_len(d) <= budget {
                    } else {
                        let pfx = d.take(crate::truncate::fit_chars(d, budget) as int);
                        crate::truncate::lemma_last_sep(pfx);
                        assert forall|i: int| 0 <= i < t.len() implies t[i] == d[i] by {
                            if crate::truncate::last_sep(pfx) > 0 {
                                assert(t[i] == pfx[i]);
                            }
                            assert(pfx[i] == d[i]);
                        }
                    }
                };
                assert(dots_ok_weak(t)) by {
                    assert forall|i: int| 0 < i < t.len() && #[trigger] t[i] == '.' implies
                        is_digit(t[i - 1]) && (i + 1 < t.len() ==> is_digit(t[i + 1])) by {
                        assert(t[i] == d[i]);
                        assert(t[i - 1] == d[i - 1]);
                        if i + 1 < t.len() {
                            assert(t[i + 1] == d[i + 1]);
                        }
                    }
                };
                if ext.len() == 0 {
                    assert forall|i: int| 0 <= i < t.len() implies t[i] != '.' by {
                        assert(t[i] == d[i]);
                        assert(d[i] == rj[i]);
                    }
                }
                lemma_split_of_slug(t, ext);
                assert(split_point(slug) == t.len());
                assert(split_ext(slug) =~= ext);
            }
        }
    }
}

/// Capitalized concatenations of placeholder-free words are
/// placeholder-free (ASCII mode), for the Camel and Pascal joins.
proof fn lemma_caps_ph_free(ws: Seq<Seq<char>>)
    requires
        forall|k: int| 0 <= k < ws.len() ==> ph_free(ws[k]),
    ensures
        ph_free(crate::words::caps_concat(ws, false)),
        ws.len() > 0 ==> ph_free(ws[0] + crate::words::caps_concat(ws.drop_first(), false)),
    decreases ws.len(),
{
    if ws.len() > 0 {
        assert forall|k: int| 0 <= k < ws.drop_first().len() implies ph_free(
            ws.drop_first()[k],
        ) by {
            assert(ws.drop_first()[k] == ws[k + 1]);
        }
        lemma_caps_ph_free(ws.drop_first());
        let head = crate::words::cap_word(ws[0], false);
        let rest = crate::words::caps_concat(ws.drop_first(), false);
        assert forall|i: int| 0 <= i < head.len() implies head[i] != VERSION_DOT by {
            if i == 0 {
                assert(head[0] == crate::chars::upper_char(ws[0][0]));
                assert(ws[0][0] != VERSION_DOT);
            } else {
                assert(head[i] == ws[0][i]);
            }
        }
        let j = crate::words::caps_concat(ws, false);
        assert forall|i: int| 0 <= i < j.len() implies j[i] != VERSION_DOT by {
            if i < head.len() {
                assert(j[i] == head[i]);
            } else {
                assert(j[i] == rest[i - head.len()]);
            }
        }
        let cj = ws[0] + rest;
        assert forall|i: int| 0 <= i < cj.len() implies cj[i] != VERSION_DOT by {
            if i < ws[0].len() {
                assert(cj[i] == ws[0][i]);
            } else {
                assert(cj[i] == rest[i - ws[0].len()]);
            }
        }
    }
}


/// A name that is nothing but a compound extension splits into an empty
/// base, so the pipeline passes it through unchanged.
pub proof fn lemma_whole_compound_splits_empty(s: Seq<char>)
    requires
        whole_compound(s),
    ensures
        split_base(s).len() == 0,
{
    lemma_last_dot(s);
    assert(!is_pure_dotfile(s)) by {
        if s.len() == 7 && matches_suffix(s, suffix_tar_gz()) {
            assert(lower_char(s[4]) == suffix_tar_gz()[4]);
            assert(s[4] == '.');
            if last_dot(s) == -1 {
                assert(false);
            }
        } else if s.len() == 8 && matches_suffix(s, suffix_tar_bz2()) {
            assert(lower_char(s[4]) == suffix_tar_bz2()[4]);
            assert(s[4] == '.');
            if last_dot(s) == -1 {
                assert(false);
            }
        } else if s.len() == 7 && matches_suffix(s, suffix_tar_xz()) {
            assert(lower_char(s[4]) == suffix_tar_xz()[4]);
            assert(s[4] == '.');
            if last_dot(s) == -1 {
                assert(false);
            }
        } else {
            assert(lower_char(s[4]) == suffix_tar_zst()[4]);
            assert(s[4] == '.');
            if last_dot(s) == -1 {
                assert(false);
            }
        }
    }
    if matches_suffix(s, suffix_tar_gz()) {
        assert(split_point(s) == s.len() - 7);
        assert(s.len() == 7) by {
            if s.len() == 8 && matches_suffix(s, suffix_tar_bz2()) {
                assert(lower_char(s[s.len() - 1]) == suffix_tar_gz()[6]);
                assert(lower_char(s[s.len() - 1]) == suffix_tar_bz2()[7]);
                assert(false);
            }
            if s.len() == 8 && matches_suffix(s, suffix_tar_zst()) {
                assert(lower_char(s[s.len() - 1]) == suffix_tar_gz()[6]);
                assert(lower_char(s[s.len() - 1]) == suffix_tar_zst()[7]);
                assert(false);
            }
        }
    } else if matches_suffix(s, suffix_tar_bz2()) {
        assert(split_point(s) == s.len() - 8);
        assert(s.len() == 8) by {
            if s.len() == 7 && matches_suffix(s, suffix_tar_xz()) {
                assert(lower_char(s[s.len() - 1]) == suffix_tar_bz2()[7]);
                assert(lower_char(s[s.len() - 1]) == suffix_tar_xz()[6]);
                assert(false);
            }
        }
    } else if matches_suffix(s, suffix_tar_xz()) {
        assert(split_point(s) == s.len() - 7);
        assert(s.len() == 7) by {
            if s.len() == 8 && matches_suffix(s, suffix_tar_zst()) {
                assert(lower_char(s[s.len() - 1]) == suffix_tar_xz()[6]);
                assert(lower_char(s[s.len() - 1]) == suffix_tar_zst()[7]);
                assert(false);
            }
        }
    } else {
        assert(s.len() == 8 && matches_suffix(s, suffix_tar_zst()));
        assert(split_point(s) == s.len() - 8);
    }
    assert(split_base(s) =~= Seq::<char>::empty());
}

/// ASCII lowercasing is idempotent.
proof fn lemma_lower_char_idem(c: char)
    ensures
        lower_char(lower_char(c)) == lower_char(c),
{
}

/// **Idempotence law.** With Unicode transliterated away and a separator
/// style, slugifying a slug returns it unchanged — granting the
/// reserved-placeholder invariant, and provided the slug was not
/// truncated.
pub proof fn lemma_slugify_idempotent(f: Seq<char>, o: SlugifyOptions)
    requires
        !o.keep_unicode,
        o.style == Style::Kebab || o.style == Style::Snake,
        ph_free(debracket_spec(translit_spec(split_base(f), false))),
        split_ext(f).len() == 0 ==> (forall|i: int|
            0 <= i < debracket_spec(translit_spec(split_base(f), false)).len()
                ==> debracket_spec(translit_spec(split_base(f), false))[i] != '.'),
        byte_len(split_ext(f)) <= MAX_FILENAME_BYTES,
        base_words(split_base(f), o).len() > 0 ==> byte_len(slug_base_spec(f, o)) + byte_len(
            split_ext(f),
        ) <= MAX_FILENAME_BYTES,
    ensures
        slug_spec(slug_spec(f, o), o) == slug_spec(f, o),
{
    let base = split_base(f);
    let ext = split_ext(f);
    let slug = slug_spec(f, o);
    lemma_split_ext_shape(f);
    if base.len() == 0 {
    } else if whole_compound(slug) {
        // a slug that is nothing but a compound extension passes through
        lemma_whole_compound_splits_empty(slug);
    } else {
        let pin = debracket_spec(translit_spec(base, false));
        let p = protect_spec(pin);
        let ws = base_words(base, o);
        if ws.len() == 0 {
            assert(slug == ext);
            lemma_split_ext_of_ext(ext);
            assert(split_base(slug).len() == 0);
        } else {
            let lws = lower_words(ws, false);
            let sep: char = if o.style == Style::Kebab {
                '-'
            } else {
                '_'
            };
            let j = join_spec(lws, o.style, false);
            let rj = restore_spec(j);
            let d = slug_base_spec(f, o);
            let dotp = base[0] == '.';
            lemma_protect_ph(pin);
            lemma_words_ph(p, false);
            lemma_words_wf(p, false);
            assert forall|k: int| 0 <= k < lws.len() implies ph_interior(lws[k]) && lws[k].len()
                == ws[k].len() by {
                assert(lws[k] == lower_word(ws[k], false));
                lemma_lower_ph(ws[k]);
            }
            lemma_join_ph(lws, o.style);
            lemma_lower_words_chars(ws);
            lemma_join_chars(lws, o.style);
            assert forall|i: int| 0 <= i < j.len() implies j[i] != '.' by {
                assert(is_word_char(j[i], false) || j[i] == '-' || j[i] == '_');
            }
            lemma_restore_structure(j);
            assert(rj == joined_words(ws, o));
            assert(d == (if dotp {
                seq!['.'] + rj
            } else {
                rj
            }));
            assert forall|i: int| 0 < i < d.len() && #[trigger] d[i] == '.' implies i + 1 < d.len()
                && is_digit(d[i - 1]) && is_digit(d[i + 1]) by {
                if dotp {
                    let q = i - 1;
                    assert(d[i] == rj[q]);
                    assert(0 < q && q + 1 < j.len());
                    assert(d[i - 1] == rj[q - 1]);
                    assert(d[i + 1] == rj[q + 1]);
                } else {
                    assert(0 < i && i + 1 < j.len());
                }
            }
            assert(dots_ok(d));
            if ext.len() == 0 {
                assert(forall|i: int| 0 <= i < pin.len() ==> pin[i] != '.');
                assert(p =~= pin) by {
                    assert forall|i: int| 0 <= i < pin.len() implies protect_spec(pin)[i]
                        == pin[i] by {
                        assert(!protected_at(pin, i));
                    }
                }
                lemma_words_ph_free(p, false);
                assert forall|k: int| 0 <= k < lws.len() implies ph_free(lws[k]) by {
                    assert(lws[k] == lower_word(ws[k], false));
                    assert forall|i: int| 0 <= i < lws[k].len() implies lws[k][i]
                        != VERSION_DOT by {
                        assert(lws[k][i] == lower_char(ws[k][i]));
                        assert(ws[k][i] != VERSION_DOT);
                    }
                }
                if o.style == Style::Kebab {
                    lemma_sep_join_ph_free(lws, '-');
                } else {
                    lemma_sep_join_ph_free(lws, '_');
                }
                assert(ph_free(j));
                assert forall|i: int| 0 <= i < d.len() implies d[i] != '.' by {
                    assert(!dotp) by {
                        if dotp {
                            lemma_last_dot(f);
                            assert(f[0] == base[0]);
                            assert(split_point(f) == f.len());
                            assert(!is_pure_dotfile(f));
                            assert(last_dot(f) >= 1);
                            assert(false);
                        }
                    }
                    assert(d[i] == rj[i]);
                    assert(rj[i] == (if j[i] == VERSION_DOT {
                        '.'
                    } else {
                        j[i]
                    }));
                }
            }
            // no truncation: the base fits its byte budget
            let budget = (MAX_FILENAME_BYTES as nat - byte_len(ext)) as nat;
            assert(byte_len(d) <= budget);
            let t = truncate_spec(d, ext, MAX_FILENAME_BYTES as nat);
            assert(t == d);
            assert(slug == d + ext);
            // the slug splits back into d and ext
            assert(d.len() > 0) by {
                assert(lws[0].len() == ws[0].len());
                assert(ws[0].len() > 0);
                if lws.len() == 1 {
                    assert(j == lws[0]);
                } else {
                    assert(j == lws[0] + seq![sep] + sep_join(lws.drop_first(), sep));
                }
                assert(j.len() > 0);
            }
            lemma_dots_ok_weaken(d);
            lemma_split_of_slug(d, ext);
            assert(split_point(slug) == d.len());
            assert(split_base(slug) =~= d);
            assert(split_ext(slug) =~= ext);
            // the second run reproduces the same words
            crate::laws::lemma_joined_words_chars(ws, o);
            assert forall|i: int| 0 <= i < d.len() implies slug_char_ok(d[i]) by {
                if dotp {
                    if i == 0 {
                        assert(d[0] == '.');
                    } else {
                        assert(d[i] == rj[i - 1]);
                    }
                } else {
                    assert(d[i] == rj[i]);
                }
            }
            assert forall|i: int| 0 <= i < d.len() implies (d[i] as u32) < 0x80 by {
                lemma_slug_char_ok_safe(d[i]);
            }
            crate::unicode::lemma_ascii_of_identity(d);
            assert(translit_spec(d, false) == d);
            assert(debracket_spec(d) =~= d) by {
                assert forall|i: int| 0 <= i < d.len() implies debracket_spec(d)[i] == d[i] by {
                    assert(slug_char_ok(d[i]));
                }
            }
            lemma_protect_of_slug_base(j, dotp);
            let pj = if dotp {
                seq!['.'] + j
            } else {
                j
            };
            assert(protect_spec(debracket_spec(translit_spec(d, false))) == pj);
            assert forall|k: int| 0 <= k < lws.len() implies lws[k].len() > 0 by {
                assert(lws[k].len() == ws[k].len());
            }
            assert(join_spec(lws, o.style, false) == sep_join(lws, sep));
            lemma_words_sep_join(lws, sep, false);
            assert(words_spec(j, false) == lws);
            if dotp {
                assert(pj[0] == '.');
                assert(!is_word_char('.', false));
                assert(pj.drop_first() =~= j);
                assert(words_spec(pj, false) == words_spec(j, false));
            }
            assert(base_words(d, o) == lws);
            assert(lws.len() > 0);
            // lowering again changes nothing
            assert forall|k: int| 0 <= k < lws.len() implies lower_words(lws, false)[k]
                == lws[k] by {
                assert(lower_words(lws, false)[k] == lower_word(lws[k], false));
                assert(lower_word(lws[k], false) =~= lws[k]) by {
                    assert forall|i: int| 0 <= i < lws[k].len() implies lower_word(
                        lws[k],
                        false,
                    )[i] == lws[k][i] by {
                        assert(lws[k][i] == lower_char(ws[k][i]));
                        assert(lower_word(lws[k], false)[i] == lower_char(lws[k][i]));
                        lemma_lower_char_idem(ws[k][i]);
                    }
                }
            }
            assert(lower_words(lws, false) =~= lws);
            assert(joined_words(lws, o) == rj);
            // the dotfile flag is reproduced, so the base is too
            assert(rj.len() == j.len());
            if !dotp {
                assert(d == rj);
                assert(d.len() == j.len());
                if d[0] == '.' {
                    assert(rj[0] == '.');
                    assert(false);
                }
            }
            assert(split_base(slug)[0] == d[0]);
            assert(slug_base_spec(slug, o) == d);
            // and the second truncation is the identity as well
            assert(base_words(split_base(slug), o) == lws);
            assert(slug_spec(slug, o) == truncate_spec(
                slug_base_spec(slug, o),
                split_ext(slug),
                MAX_FILENAME_BYTES as nat,
            ) + split_ext(slug));
            assert(truncate_spec(d, ext, MAX_FILENAME_BYTES as nat) == d);
            assert(slug_spec(slug, o) =~= slug);
        }
    }
}

} // verus!
