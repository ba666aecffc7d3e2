//! Word segmentation, lowercasing, and style-dependent joining.
//!
//! A word is a maximal run of word-class characters (see
//! [`crate::unicode::is_word_char`]). Words are lowercased and then joined
//! according to the selected [`crate::Style`].

use crate::chars::{copy_range, lower_char, to_lower, to_upper, upper_char};
use crate::unicode::{is_word_char, lower_of, lowercase_word, upper_of, uppercase_char, word_char};
use crate::Style;
use vstd::prelude::*;

verus! {

/// Length of the maximal word-character prefix of `s`.
pub open spec fn run_len(s: Seq<char>, uni: bool) -> int
    decreases s.len(),
{
    if s.len() == 0 || !is_word_char(s[0], uni) {
        0
    } else {
        1 + run_len(s.drop_first(), uni)
    }
}

/// The run length stays within the sequence and covers exactly the leading
/// word characters.
pub proof fn lemma_run_len(s: Seq<char>, uni: bool)
    ensures
        0 <= run_len(s, uni) <= s.len(),
        forall|i: int| 0 <= i < run_len(s, uni) ==> is_word_char(s[i], uni),
        run_len(s, uni) < s.len() ==> !is_word_char(s[run_len(s, uni)], uni),
    decreases s.len(),
{
    if s.len() > 0 && is_word_char(s[0], uni) {
        lemma_run_len(s.drop_first(), uni);
        assert forall|i: int| 0 <= i < run_len(s, uni) implies is_word_char(s[i], uni) by {
            if i > 0 {
                assert(s.drop_first()[i - 1] == s[i]);
            }
        }
        if run_len(s, uni) < s.len() {
            assert(s.drop_first()[run_len(s, uni) - 1] == s[run_len(s, uni)]);
        }
    }
}

/// A prefix of word characters stopped by a non-word character (or the end)
/// is exactly the maximal run.
pub proof fn lemma_run_len_is(s: Seq<char>, uni: bool, m: int)
    requires
        0 <= m <= s.len(),
        forall|i: int| 0 <= i < m ==> is_word_char(s[i], uni),
        m < s.len() ==> !is_word_char(s[m], uni),
    ensures
        run_len(s, uni) == m,
    decreases s.len(),
{
    if m == 0 {
    } else {
        assert(is_word_char(s[0], uni));
        assert forall|i: int| 0 <= i < m - 1 implies is_word_char(s.drop_first()[i], uni) by {
            assert(s.drop_first()[i] == s[i + 1]);
        }
        lemma_run_len_is(s.drop_first(), uni, m - 1);
    }
}

/// The words of `s`: its maximal runs of word characters, in order.
pub open spec fn words_spec(s: Seq<char>, uni: bool) -> Seq<Seq<char>>
    decreases s.len(),
    via words_spec_decreases
{
    if s.len() == 0 {
        Seq::empty()
    } else if !is_word_char(s[0], uni) {
        words_spec(s.drop_first(), uni)
    } else {
        seq![s.take(run_len(s, uni))] + words_spec(s.skip(run_len(s, uni)), uni)
    }
}

#[via_fn]
proof fn words_spec_decreases(s: Seq<char>, uni: bool) {
    if s.len() > 0 && is_word_char(s[0], uni) {
        lemma_run_len(s, uni);
    }
}

/// Every word is a nonempty run of word characters.
pub proof fn lemma_words_wf(s: Seq<char>, uni: bool)
    ensures
        forall|k: int| 0 <= k < words_spec(s, uni).len() ==> words_spec(s, uni)[k].len() > 0,
        forall|k: int, i: int|
            0 <= k < words_spec(s, uni).len() && 0 <= i < words_spec(s, uni)[k].len()
                ==> is_word_char(words_spec(s, uni)[k][i], uni),
    decreases s.len(),
{
    if s.len() == 0 {
    } else if !is_word_char(s[0], uni) {
        lemma_words_wf(s.drop_first(), uni);
        assert(words_spec(s, uni) == words_spec(s.drop_first(), uni));
        assert forall|k: int| 0 <= k < words_spec(s, uni).len() implies words_spec(
            s,
            uni,
        )[k].len() > 0 by {
            assert(words_spec(s, uni)[k] == words_spec(s.drop_first(), uni)[k]);
        }
        assert forall|k: int, i: int|
            0 <= k < words_spec(s, uni).len() && 0 <= i < words_spec(s, uni)[k].len() implies is_word_char(
            words_spec(s, uni)[k][i],
            uni,
        ) by {
            assert(words_spec(s, uni)[k] == words_spec(s.drop_first(), uni)[k]);
        }
    } else {
        lemma_run_len(s, uni);
        lemma_run_len(s.drop_first(), uni);
        let n0 = run_len(s, uni);
        let rest = words_spec(s.skip(n0), uni);
        lemma_words_wf(s.skip(n0), uni);
        let w = s.take(n0);
        assert(n0 >= 1);
        assert(forall|i: int| 0 <= i < w.len() ==> is_word_char(w[i], uni));
        assert forall|k: int| 0 <= k < words_spec(s, uni).len() implies words_spec(
            s,
            uni,
        )[k].len() > 0 by {
            if k == 0 {
                assert(words_spec(s, uni)[0] == w);
            } else {
                assert(words_spec(s, uni)[k] == rest[k - 1]);
            }
        }
        assert forall|k: int, i: int|
            0 <= k < words_spec(s, uni).len() && 0 <= i < words_spec(s, uni)[k].len() implies is_word_char(
            words_spec(s, uni)[k][i],
            uni,
        ) by {
            if k == 0 {
                assert(words_spec(s, uni)[0] == w);
            } else {
                assert(words_spec(s, uni)[k] == rest[k - 1]);
            }
        }
    }
}

/// Lowercase one word: Unicode-aware when `uni` is set, otherwise the
/// ASCII mapping applied character by character.
pub open spec fn lower_word(w: Seq<char>, uni: bool) -> Seq<char> {
    if uni {
        lower_of(w)
    } else {
        Seq::new(w.len(), |i: int| lower_char(w[i]))
    }
}

/// Lowercase every word of `ws`.
pub open spec fn lower_words(ws: Seq<Seq<char>>, uni: bool) -> Seq<Seq<char>> {
    Seq::new(ws.len(), |k: int| lower_word(ws[k], uni))
}

/// A word with its first character uppercased, used by the Camel and
/// Pascal styles.
pub open spec fn cap_word(w: Seq<char>, uni: bool) -> Seq<char> {
    if w.len() == 0 {
        w
    } else if uni {
        upper_of(w[0]) + w.drop_first()
    } else {
        seq![upper_char(w[0])] + w.drop_first()
    }
}

/// Concatenation of all words, each with its first character uppercased.
pub open spec fn caps_concat(ws: Seq<Seq<char>>, uni: bool) -> Seq<char>
    decreases ws.len(),
{
    if ws.len() == 0 {
        Seq::empty()
    } else {
        cap_word(ws[0], uni) + caps_concat(ws.drop_first(), uni)
    }
}

/// Words joined by a single separator character.
pub open spec fn sep_join(ws: Seq<Seq<char>>, sep: char) -> Seq<char>
    decreases ws.len(),
{
    if ws.len() == 0 {
        Seq::empty()
    } else if ws.len() == 1 {
        ws[0]
    } else {
        ws[0] + seq![sep] + sep_join(ws.drop_first(), sep)
    }
}

/// The separator a style places between words; Camel and Pascal place none.
pub open spec fn join_spec(ws: Seq<Seq<char>>, style: Style, uni: bool) -> Seq<char> {
    match style {
        Style::Kebab => sep_join(ws, '-'),
        Style::Snake => sep_join(ws, '_'),
        Style::Camel => if ws.len() == 0 {
            Seq::empty()
        } else {
            ws[0] + caps_concat(ws.drop_first(), uni)
        },
        Style::Pascal => caps_concat(ws, uni),
    }
}

/// Joining one more word appends a separator and the word.
pub proof fn lemma_sep_join_snoc(ws: Seq<Seq<char>>, w: Seq<char>, sep: char)
    requires
        ws.len() > 0,
    ensures
        sep_join(ws.push(w), sep) == sep_join(ws, sep) + seq![sep] + w,
    decreases ws.len(),
{
    if ws.len() == 1 {
        assert(ws.push(w)[0] == ws[0]);
        assert(ws.push(w).drop_first() =~= seq![w]);
        assert(sep_join(seq![w], sep) == w);
        assert(sep_join(ws.push(w), sep) =~= sep_join(ws, sep) + seq![sep] + w);
    } else {
        assert(ws.push(w).drop_first() =~= ws.drop_first().push(w));
        lemma_sep_join_snoc(ws.drop_first(), w, sep);
        assert(sep_join(ws.push(w), sep) =~= sep_join(ws, sep) + seq![sep] + w);
    }
}

/// Capitalizing one more word appends its capitalized form.
pub proof fn lemma_caps_concat_snoc(ws: Seq<Seq<char>>, w: Seq<char>, uni: bool)
    ensures
        caps_concat(ws.push(w), uni) == caps_concat(ws, uni) + cap_word(w, uni),
    decreases ws.len(),
{
    if ws.len() == 0 {
        assert(ws.push(w)[0] == w);
        assert(ws.push(w).drop_first() =~= Seq::<Seq<char>>::empty());
        assert(caps_concat(ws.push(w), uni) == cap_word(w, uni) + caps_concat(
            Seq::<Seq<char>>::empty(),
            uni,
        ));
        assert(caps_concat(ws.push(w), uni) =~= caps_concat(ws, uni) + cap_word(w, uni));
    } else {
        assert(ws.push(w).drop_first() =~= ws.drop_first().push(w));
        lemma_caps_concat_snoc(ws.drop_first(), w, uni);
        assert(caps_concat(ws.push(w), uni) =~= caps_concat(ws, uni) + cap_word(w, uni));
    }
}

/// Split `v` into its maximal runs of word characters.
pub fn segment(v: &Vec<char>, uni: bool) -> (r: Vec<Vec<char>>)
    ensures
        r.deep_view() == words_spec(v@, uni),
{
    let n = v.len();
    let mut r: Vec<Vec<char>> = Vec::new();
    let mut i: usize = 0;
    proof {
        assert(v@.skip(0) =~= v@);
        assert(r.deep_view() =~= Seq::<Seq<char>>::empty());
        assert(r.deep_view() + words_spec(v@.skip(0), uni) =~= words_spec(v@, uni));
    }
    while i < n
        invariant
            n == v@.len(),
            i <= n,
            r.deep_view() + words_spec(v@.skip(i as int), uni) == words_spec(v@, uni),
        decreases n - i,
    {
        if !word_char(v[i], uni) {
            proof {
                assert(v@.skip(i as int).drop_first() =~= v@.skip(i + 1));
            }
            i = i + 1;
        } else {
            let start = i;
            let mut j = i + 1;
            while j < n
                invariant
                    n == v@.len(),
                    start < j <= n,
                    forall|k: int| start <= k < j ==> is_word_char(v@[k], uni),
                ensures
                    start < j <= n,
                    forall|k: int| start <= k < j ==> is_word_char(v@[k], uni),
                    j < n ==> !is_word_char(v@[j as int], uni),
                decreases n - j,
            {
                if !word_char(v[j], uni) {
                    break;
                }
                j = j + 1;
            }
            let w = copy_range(v, start, j);
            proof {
                let tail = v@.skip(start as int);
                assert forall|k: int| 0 <= k < j - start implies is_word_char(tail[k], uni) by {
                    assert(tail[k] == v@[start + k]);
                }
                if j < n {
                    assert(tail[j - start] == v@[j as int]);
                }
                lemma_run_len_is(tail, uni, j - start);
                assert(tail.take(j - start) =~= v@.subrange(start as int, j as int));
                assert(tail.skip(j - start) =~= v@.skip(j as int));
                assert(words_spec(tail, uni) == seq![w@] + words_spec(v@.skip(j as int), uni));
            }
            let ghost old_deep = r.deep_view();
            r.push(w);
            proof {
                assert(r.deep_view() =~~= old_deep.push(w@));
                assert(old_deep.push(w@) + words_spec(v@.skip(j as int), uni) =~= old_deep + (
                seq![w@] + words_spec(v@.skip(j as int), uni)));
            }
            i = j;
        }
    }
    proof {
        assert(v@.skip(n as int) =~= Seq::<char>::empty());
        assert(r.deep_view() + words_spec(v@.skip(n as int), uni) =~= r.deep_view());
    }
    r
}

/// Lowercase every word of `ws` in place of a fresh list.
pub fn lowercase_all(ws: &Vec<Vec<char>>, uni: bool) -> (r: Vec<Vec<char>>)
    ensures
        r.deep_view() == lower_words(ws.deep_view(), uni),
{
    let n = ws.len();
    let mut r: Vec<Vec<char>> = Vec::new();
    let mut k: usize = 0;
    while k < n
        invariant
            n == ws@.len(),
            k <= n,
            r.deep_view() == lower_words(ws.deep_view(), uni).take(k as int),
        decreases n - k,
    {
        let w = &ws[k];
        let lw: Vec<char>;
        if uni {
            lw = lowercase_word(w);
        } else {
            let m = w.len();
            let mut acc: Vec<char> = Vec::new();
            let mut i: usize = 0;
            while i < m
                invariant
                    m == w@.len(),
                    i <= m,
                    acc@ == Seq::new(i as nat, |t: int| lower_char(w@[t])),
                decreases m - i,
            {
                acc.push(to_lower(w[i]));
                proof {
                    assert(acc@ =~= Seq::new((i + 1) as nat, |t: int| lower_char(w@[t])));
                }
                i = i + 1;
            }
            lw = acc;
        }
        proof {
            assert(ws.deep_view()[k as int] =~= w@);
            assert(lw@ == lower_word(ws.deep_view()[k as int], uni));
        }
        let ghost old_deep = r.deep_view();
        r.push(lw);
        proof {
            assert(r.deep_view() =~~= old_deep.push(lw@));
            assert(lower_words(ws.deep_view(), uni).take(k + 1) =~= lower_words(
                ws.deep_view(),
                uni,
            ).take(k as int).push(lower_word(ws.deep_view()[k as int], uni)));
            assert(r.deep_view() =~= lower_words(ws.deep_view(), uni).take(k + 1));
        }
        k = k + 1;
    }
    proof {
        assert(lower_words(ws.deep_view(), uni).take(n as int) =~= lower_words(
            ws.deep_view(),
            uni,
        ));
    }
    r
}

/// Append the characters of `w` to `out`.
pub(crate) fn push_all(out: &mut Vec<char>, w: &Vec<char>)
    ensures
        final(out)@ == old(out)@ + w@,
{
    let m = w.len();
    let mut i: usize = 0;
    while i < m
        invariant
            m == w@.len(),
            i <= m,
            out@ == old(out)@ + w@.take(i as int),
        decreases m - i,
    {
        out.push(w[i]);
        proof {
            assert(out@ =~= old(out)@ + w@.take(i + 1));
        }
        i = i + 1;
    }
    proof {
        assert(old(out)@ + w@.take(m as int) =~= old(out)@ + w@);
    }
}

/// Append the capitalized form of `w` to `out`.
fn push_cap(out: &mut Vec<char>, w: &Vec<char>, uni: bool)
    ensures
        final(out)@ == old(out)@ + cap_word(w@, uni),
{
    if w.len() == 0 {
        proof {
            assert(out@ =~= old(out)@ + cap_word(w@, uni));
        }
        return ;
    }
    let ghost base = out@;
    if uni {
        let head = uppercase_char(w[0]);
        push_all(out, &head);
    } else {
        out.push(to_upper(w[0]));
    }
    let ghost mid = out@;
    let m = w.len();
    let mut i: usize = 1;
    while i < m
        invariant
            m == w@.len(),
            1 <= i <= m,
            out@ == mid + w@.subrange(1, i as int),
        decreases m - i,
    {
        out.push(w[i]);
        proof {
            assert(out@ =~= mid + w@.subrange(1, i + 1));
        }
        i = i + 1;
    }
    proof {
        assert(w@.subrange(1, m as int) =~= w@.drop_first());
        if uni {
            assert(out@ =~= base + cap_word(w@, uni));
        } else {
            assert(out@ =~= base + cap_word(w@, uni));
        }
    }
}

/// Join `ws` according to `style`.
pub fn join(ws: &Vec<Vec<char>>, style: Style, uni: bool) -> (r: Vec<char>)
    ensures
        r@ == join_spec(ws.deep_view(), style, uni),
{
    let n = ws.len();
    let mut out: Vec<char> = Vec::new();
    match style {
        Style::Kebab | Style::Snake => {
            let sep: char = if matches!(style, Style::Kebab) {
                '-'
            } else {
                '_'
            };
            let mut k: usize = 0;
            while k < n
                invariant
                    n == ws@.len(),
                    k <= n,
                    out@ == sep_join(ws.deep_view().take(k as int), sep),
                    sep == (if style is Kebab {
                        '-'
                    } else {
                        '_'
                    }),
                decreases n - k,
            {
                let ghost pre = ws.deep_view().take(k as int);
                if k > 0 {
                    out.push(sep);
                }
                push_all(&mut out, &ws[k]);
                proof {
                    assert(ws.deep_view().take(k + 1) =~= pre.push(ws.deep_view()[k as int]));
                    if k == 0 {
                        assert(sep_join(ws.deep_view().take(1), sep) == ws.deep_view()[0]);
                        assert(out@ =~= sep_join(ws.deep_view().take(1), sep));
                    } else {
                        lemma_sep_join_snoc(pre, ws.deep_view()[k as int], sep);
                        assert(out@ =~= sep_join(ws.deep_view().take(k + 1), sep));
                    }
                }
                k = k + 1;
            }
            proof {
                assert(ws.deep_view().take(n as int) =~= ws.deep_view());
                if style is Kebab {
                    assert(out@ == join_spec(ws.deep_view(), style, uni));
                } else {
                    assert(out@ == join_spec(ws.deep_view(), style, uni));
                }
            }
        },
        Style::Camel | Style::Pascal => {
            let cap_first = matches!(style, Style::Pascal);
            let mut k: usize = 0;
            while k < n
                invariant
                    n == ws@.len(),
                    k <= n,
                    cap_first == (style is Pascal),
                    cap_first ==> out@ == caps_concat(ws.deep_view().take(k as int), uni),
                    !cap_first && k == 0 ==> out@.len() == 0,
                    !cap_first && k > 0 ==> out@ == ws.deep_view()[0] + caps_concat(
                        ws.deep_view().subrange(1, k as int),
                        uni,
                    ),
                decreases n - k,
            {
                if k == 0 && !cap_first {
                    push_all(&mut out, &ws[0]);
                    proof {
                        assert(ws.deep_view().subrange(1, 1) =~= Seq::<Seq<char>>::empty());
                        assert(out@ =~= ws.deep_view()[0] + caps_concat(
                            ws.deep_view().subrange(1, 1),
                            uni,
                        ));
                    }
                } else {
                    push_cap(&mut out, &ws[k], uni);
                    proof {
                        if cap_first {
                            lemma_caps_concat_snoc(
                                ws.deep_view().take(k as int),
                                ws.deep_view()[k as int],
                                uni,
                            );
                            assert(ws.deep_view().take(k + 1) =~= ws.deep_view().take(
                                k as int,
                            ).push(ws.deep_view()[k as int]));
                            assert(out@ =~= caps_concat(ws.deep_view().take(k + 1), uni));
                        } else {
                            lemma_caps_concat_snoc(
                                ws.deep_view().subrange(1, k as int),
                                ws.deep_view()[k as int],
                                uni,
                            );
                            assert(ws.deep_view().subrange(1, k + 1) =~= ws.deep_view().subrange(
                                1,
                                k as int,
                            ).push(ws.deep_view()[k as int]));
                            assert(out@ =~= ws.deep_view()[0] + caps_concat(
                                ws.deep_view().subrange(1, k + 1),
                                uni,
                            ));
                        }
                    }
                }
                k = k + 1;
            }
            proof {
                if cap_first {
                    assert(ws.deep_view().take(n as int) =~= ws.deep_view());
                } else {
                    if n == 0 {
                    } else {
                        assert(ws.deep_view().subrange(1, n as int) =~= ws.deep_view(
                        ).drop_first());
                    }
                }
            }
        },
    }
    out
}

} // verus!
