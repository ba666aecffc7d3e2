//! Crate-level laws: shell safety and the filename length bound.
//!
//! These are stated over the same spec functions that the executable
//! pipeline's contracts use, so they hold of what [`crate::slugify`]
//! returns.

use crate::chars::{byte_len, is_ascii_alnum, lemma_byte_len_concat, lower_char, upper_char};
use crate::slug::{base_words, joined_words, slug_spec};
use crate::split::{lemma_split_round_trip, split_base, split_ext};
use crate::truncate::{fit_chars, last_sep, lemma_fit_chars, lemma_last_sep, lemma_truncate_fits,
    truncate_spec, truncate_to_budget};
use crate::unicode::is_word_char;
use crate::version::restore_spec;
use crate::words::{cap_word, caps_concat, join_spec, lemma_words_wf, lower_word, lower_words,
    sep_join, words_spec};
use crate::{SlugifyOptions, Style, MAX_FILENAME_BYTES, VERSION_DOT};
use vstd::prelude::*;

verus! {

/// The characters a slug must never contain: shell metacharacters,
/// quotes, redirections, and the newline.
pub open spec fn shell_unsafe(c: char) -> bool {
    ||| c == '$'
    ||| c == '('
    ||| c == ')'
    ||| c == '`'
    ||| c == ';'
    ||| c == '|'
    ||| c == '>'
    ||| c == '<'
    ||| c == '\n'
    ||| c == '&'
    ||| c == '"'
    ||| c == '\''
}

/// The characters a generated base may consist of: ASCII letters and
/// digits, the two separators, and the dot.
pub open spec fn slug_char_ok(c: char) -> bool {
    is_ascii_alnum(c) || c == '-' || c == '_' || c == '.'
}

/// No acceptable slug character is shell-unsafe, and all are ASCII.
pub proof fn lemma_slug_char_ok_safe(c: char)
    requires
        slug_char_ok(c),
    ensures
        !shell_unsafe(c),
        (c as u32) < 0x80,
{
}

/// Lowercasing keeps word characters word characters (ASCII mode).
proof fn lemma_lower_word_chars(w: Seq<char>)
    requires
        forall|i: int| 0 <= i < w.len() ==> is_word_char(w[i], false),
    ensures
        forall|i: int| 0 <= i < lower_word(w, false).len() ==> is_word_char(
            lower_word(w, false)[i],
            false,
        ),
        lower_word(w, false).len() == w.len(),
{
    assert forall|i: int| 0 <= i < lower_word(w, false).len() implies is_word_char(
        lower_word(w, false)[i],
        false,
    ) by {
        assert(lower_word(w, false)[i] == lower_char(w[i]));
    }
}

/// Every word of the lowered list is made of word characters (ASCII mode).
pub(crate) proof fn lemma_lower_words_chars(ws: Seq<Seq<char>>)
    requires
        forall|k: int, i: int|
            0 <= k < ws.len() && 0 <= i < ws[k].len() ==> is_word_char(ws[k][i], false),
    ensures
        forall|k: int, i: int|
            0 <= k < lower_words(ws, false).len() && 0 <= i < lower_words(ws, false)[k].len()
                ==> is_word_char(lower_words(ws, false)[k][i], false),
{
    assert forall|k: int, i: int|
        0 <= k < lower_words(ws, false).len() && 0 <= i < lower_words(ws, false)[k].len() implies is_word_char(
        lower_words(ws, false)[k][i],
        false,
    ) by {
        assert(lower_words(ws, false)[k] == lower_word(ws[k], false));
        lemma_lower_word_chars(ws[k]);
    }
}

/// Capitalizing a word of word characters yields word characters
/// (ASCII mode).
proof fn lemma_cap_word_chars(w: Seq<char>)
    requires
        forall|i: int| 0 <= i < w.len() ==> is_word_char(w[i], false),
    ensures
        forall|i: int| 0 <= i < cap_word(w, false).len() ==> is_word_char(cap_word(w, false)[i], false),
{
    if w.len() > 0 {
        assert forall|i: int| 0 <= i < cap_word(w, false).len() implies is_word_char(
            cap_word(w, false)[i],
            false,
        ) by {
            if i == 0 {
                assert(cap_word(w, false)[0] == upper_char(w[0]));
            } else {
                assert(cap_word(w, false)[i] == w[i]);
            }
        }
    }
}

/// A separator join over words of word characters holds only word
/// characters and the separator (ASCII mode).
proof fn lemma_sep_join_chars(ws: Seq<Seq<char>>, sep: char)
    requires
        forall|k: int, i: int|
            0 <= k < ws.len() && 0 <= i < ws[k].len() ==> is_word_char(ws[k][i], false),
    ensures
        forall|i: int|
            0 <= i < sep_join(ws, sep).len() ==> is_word_char(sep_join(ws, sep)[i], false)
                || sep_join(ws, sep)[i] == sep,
    decreases ws.len(),
{
    if ws.len() == 0 {
    } else if ws.len() == 1 {
        assert forall|i: int| 0 <= i < sep_join(ws, sep).len() implies is_word_char(
            sep_join(ws, sep)[i],
            false,
        ) || sep_join(ws, sep)[i] == sep by {
            assert(sep_join(ws, sep)[i] == ws[0][i]);
        }
    } else {
        assert forall|k: int, i: int|
            0 <= k < ws.drop_first().len() && 0 <= i < ws.drop_first()[k].len() implies is_word_char(
            ws.drop_first()[k][i],
            false,
        ) by {
            assert(ws.drop_first()[k] == ws[k + 1]);
        }
        lemma_sep_join_chars(ws.drop_first(), sep);
        let j = sep_join(ws, sep);
        let rest = sep_join(ws.drop_first(), sep);
        assert forall|i: int| 0 <= i < j.len() implies is_word_char(j[i], false) || j[i] == sep by {
            if i < ws[0].len() {
                assert(j[i] == ws[0][i]);
            } else if i == ws[0].len() {
                assert(j[i] == sep);
            } else {
                assert(j[i] == rest[i - ws[0].len() - 1]);
            }
        }
    }
}

/// A capitalized concatenation over words of word characters holds only
/// word characters (ASCII mode).
proof fn lemma_caps_concat_chars(ws: Seq<Seq<char>>)
    requires
        forall|k: int, i: int|
            0 <= k < ws.len() && 0 <= i < ws[k].len() ==> is_word_char(ws[k][i], false),
    ensures
        forall|i: int| 0 <= i < caps_concat(ws, false).len() ==> is_word_char(
            caps_concat(ws, false)[i],
            false,
        ),
    decreases ws.len(),
{
    if ws.len() > 0 {
        assert forall|k: int, i: int|
            0 <= k < ws.drop_first().len() && 0 <= i < ws.drop_first()[k].len() implies is_word_char(
            ws.drop_first()[k][i],
            false,
        ) by {
            assert(ws.drop_first()[k] == ws[k + 1]);
        }
        lemma_caps_concat_chars(ws.drop_first());
        lemma_cap_word_chars(ws[0]);
        let j = caps_concat(ws, false);
        let head = cap_word(ws[0], false);
        let rest = caps_concat(ws.drop_first(), false);
        assert forall|i: int| 0 <= i < j.len() implies is_word_char(j[i], false) by {
            if i < head.len() {
                assert(j[i] == head[i]);
            } else {
                assert(j[i] == rest[i - head.len()]);
            }
        }
    }
}

/// The joined words of a word list hold only word characters and
/// separators (ASCII mode, any style).
pub(crate) proof fn lemma_join_chars(ws: Seq<Seq<char>>, style: Style)
    requires
        forall|k: int, i: int|
            0 <= k < ws.len() && 0 <= i < ws[k].len() ==> is_word_char(ws[k][i], false),
    ensures
        forall|i: int|
            0 <= i < join_spec(ws, style, false).len() ==> is_word_char(
                join_spec(ws, style, false)[i],
                false,
            ) || join_spec(ws, style, false)[i] == '-' || join_spec(ws, style, false)[i] == '_',
{
    match style {
        Style::Kebab => {
            lemma_sep_join_chars(ws, '-');
        },
        Style::Snake => {
            lemma_sep_join_chars(ws, '_');
        },
        Style::Camel => {
            if ws.len() > 0 {
                assert forall|k: int, i: int|
                    0 <= k < ws.drop_first().len() && 0 <= i
                        < ws.drop_first()[k].len() implies is_word_char(
                    ws.drop_first()[k][i],
                    false,
                ) by {
                    assert(ws.drop_first()[k] == ws[k + 1]);
                }
                lemma_caps_concat_chars(ws.drop_first());
                let j = join_spec(ws, style, false);
                let rest = caps_concat(ws.drop_first(), false);
                assert forall|i: int| 0 <= i < j.len() implies is_word_char(j[i], false) || j[i]
                    == '-' || j[i] == '_' by {
                    if i < ws[0].len() {
                        assert(j[i] == ws[0][i]);
                    } else {
                        assert(j[i] == rest[i - ws[0].len()]);
                    }
                }
            }
        },
        Style::Pascal => {
            lemma_caps_concat_chars(ws);
        },
    }
}

/// The joined, restored base of a word list holds only acceptable slug
/// characters (ASCII mode).
pub proof fn lemma_joined_words_chars(ws: Seq<Seq<char>>, o: SlugifyOptions)
    requires
        !o.keep_unicode,
        forall|k: int, i: int|
            0 <= k < ws.len() && 0 <= i < ws[k].len() ==> is_word_char(ws[k][i], false),
    ensures
        forall|i: int| 0 <= i < joined_words(ws, o).len() ==> slug_char_ok(joined_words(ws, o)[i]),
{
    lemma_lower_words_chars(ws);
    lemma_join_chars(lower_words(ws, false), o.style);
    let j = join_spec(lower_words(ws, false), o.style, false);
    assert forall|i: int| 0 <= i < joined_words(ws, o).len() implies slug_char_ok(
        joined_words(ws, o)[i],
    ) by {
        assert(joined_words(ws, o)[i] == restore_spec(j)[i]);
        assert(restore_spec(j)[i] == (if j[i] == VERSION_DOT {
            '.'
        } else {
            j[i]
        }));
    }
}

/// A truncation keeps only characters of its input.
pub proof fn lemma_truncate_chars_subset(base: Seq<char>, budget: nat)
    requires
        forall|i: int| 0 <= i < base.len() ==> slug_char_ok(base[i]),
    ensures
        forall|i: int| 0 <= i < truncate_to_budget(base, budget).len() ==> slug_char_ok(
            truncate_to_budget(base, budget)[i],
        ),
{
    lemma_fit_chars(base, budget);
    let t = truncate_to_budget(base, budget);
    if byte_len(base) <= budget {
    } else {
        let p = base.take(fit_chars(base, budget) as int);
        lemma_last_sep(p);
        assert forall|i: int| 0 <= i < t.len() implies slug_char_ok(t[i]) by {
            if last_sep(p) > 0 {
                assert(t[i] == p[i]);
            }
            assert(p[i] == base[i]);
        }
    }
}

/// **Safety law.** When Unicode is transliterated away and the input's
/// extension is itself clean, the slug contains no shell metacharacter,
/// no quote, no redirection, no newline, and nothing beyond ASCII.
pub proof fn lemma_slug_safe(f: Seq<char>, o: SlugifyOptions)
    requires
        !o.keep_unicode,
        forall|i: int|
            0 <= i < split_ext(f).len() ==> !shell_unsafe(split_ext(f)[i]) && (split_ext(f)[i]
                as u32) < 0x80,
    ensures
        forall|i: int| 0 <= i < slug_spec(f, o).len() ==> !shell_unsafe(slug_spec(f, o)[i]),
        forall|i: int| 0 <= i < slug_spec(f, o).len() ==> (slug_spec(f, o)[i] as u32) < 0x80,
{
    let base = split_base(f);
    let ext = split_ext(f);
    let slug = slug_spec(f, o);
    if base.len() == 0 {
        lemma_split_round_trip(f);
        assert(f =~= ext);
    } else {
        let ws = base_words(base, o);
        if ws.len() == 0 {
        } else {
            lemma_words_wf(
                crate::version::protect_spec(
                    crate::slug::debracket_spec(crate::slug::translit_spec(base, o.keep_unicode)),
                ),
                o.keep_unicode,
            );
            lemma_joined_words_chars(ws, o);
            let j = joined_words(ws, o);
            let d = if base[0] == '.' {
                seq!['.'] + j
            } else {
                j
            };
            assert forall|i: int| 0 <= i < d.len() implies slug_char_ok(d[i]) by {
                if base[0] == '.' {
                    if i == 0 {
                        assert(d[0] == '.');
                    } else {
                        assert(d[i] == j[i - 1]);
                    }
                } else {
                    assert(d[i] == j[i]);
                }
            }
            let budget = if byte_len(ext) > MAX_FILENAME_BYTES as nat {
                0nat
            } else {
                (MAX_FILENAME_BYTES as nat - byte_len(ext)) as nat
            };
            lemma_truncate_chars_subset(d, budget);
            let t = truncate_spec(d, ext, MAX_FILENAME_BYTES as nat);
            assert forall|i: int| 0 <= i < slug.len() implies !shell_unsafe(slug[i]) && (slug[i]
                as u32) < 0x80 by {
                if i < t.len() {
                    assert(slug[i] == t[i]);
                    lemma_slug_char_ok_safe(t[i]);
                } else {
                    assert(slug[i] == ext[i - t.len()]);
                }
            }
        }
    }
}

/// **Length law.** Whenever the extension alone fits the filesystem
/// limit (and a pure dotfile, which passes through unchanged, does too),
/// the slug occupies at most [`MAX_FILENAME_BYTES`] bytes — in terms of
/// its actual UTF-8 encoding.
pub proof fn lemma_slug_length_bound(f: Seq<char>, o: SlugifyOptions)
    requires
        byte_len(split_ext(f)) <= MAX_FILENAME_BYTES,
        split_base(f).len() == 0 ==> byte_len(f) <= MAX_FILENAME_BYTES,
    ensures
        byte_len(slug_spec(f, o)) <= MAX_FILENAME_BYTES,
        vstd::utf8::encode_utf8(slug_spec(f, o)).len() <= MAX_FILENAME_BYTES,
{
    crate::chars::lemma_byte_len_is_utf8_len(slug_spec(f, o));
    let base = split_base(f);
    let ext = split_ext(f);
    if base.len() == 0 {
    } else {
        let ws = base_words(base, o);
        if ws.len() == 0 {
        } else {
            let j = joined_words(ws, o);
            let d = if base[0] == '.' {
                seq!['.'] + j
            } else {
                j
            };
            let budget = (MAX_FILENAME_BYTES as nat - byte_len(ext)) as nat;
            lemma_truncate_fits(d, budget);
            lemma_byte_len_concat(truncate_spec(d, ext, MAX_FILENAME_BYTES as nat), ext);
        }
    }
}

} // verus!
