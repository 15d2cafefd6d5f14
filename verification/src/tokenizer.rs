//! Tokenization: text normalization, word splitting, id lookup and padding.

use vstd::prelude::*;
use vstd::string::StrSliceExecFns;
use vstd::string::StringExecFns;
use crate::config::{spec_pad_token, spec_unk_token, pad_token, unk_token};
use crate::vocab::Vocab;

verus! {

/// The lowercased form of a character sequence, as `str::to_lowercase` yields it.
pub uninterp spec fn lower_of(s: Seq<char>) -> Seq<char>;

/// Whether the Unicode tables class `c` as alphanumeric.
pub uninterp spec fn is_alnum_char(c: char) -> bool;

/// Whether the Unicode tables class `c` as whitespace.
pub uninterp spec fn is_wsp_char(c: char) -> bool;

/// Relies on str::to_lowercase: the result is a function of the characters
/// alone, and lowercasing empty text yields empty text.
#[verifier::external_body]
fn lowercase(s: &str) -> (r: String)
    ensures
        r@ == lower_of(s@),
        s@.len() == 0 ==> r@.len() == 0,
{
    s.to_lowercase()
}

/// Relies on char::is_alphanumeric: classification depends on the character alone.
#[verifier::external_body]
fn alnum(c: char) -> (r: bool)
    ensures
        r == is_alnum_char(c),
{
    c.is_alphanumeric()
}

/// Relies on char::is_whitespace: classification depends on the character alone.
#[verifier::external_body]
fn wsp(c: char) -> (r: bool)
    ensures
        r == is_wsp_char(c),
{
    c.is_whitespace()
}

/// A character survives normalization when it is alphanumeric or whitespace.
pub open spec fn keep_char(c: char) -> bool {
    is_alnum_char(c) || is_wsp_char(c)
}

/// The subsequence of characters that survive normalization.
pub open spec fn visible_chars(s: Seq<char>) -> Seq<char>
    decreases s.len(),
{
    if s.len() == 0 {
        Seq::empty()
    } else {
        visible_chars(s.drop_last())
            + (if keep_char(s.last()) {
                seq![s.last()]
            } else {
                Seq::<char>::empty()
            })
    }
}

/// One left-to-right scan that gathers maximal non-whitespace runs:
/// `cur` is the run in progress, `acc` the words already complete.
pub open spec fn words_from(s: Seq<char>, i: int, cur: Seq<char>, acc: Seq<Seq<char>>) -> Seq<
    Seq<char>,
>
    decreases s.len() - i,
{
    if i < 0 || i >= s.len() {
        if cur.len() == 0 {
            acc
        } else {
            acc.push(cur)
        }
    } else if is_wsp_char(s[i]) {
        if cur.len() == 0 {
            words_from(s, i + 1, cur, acc)
        } else {
            words_from(s, i + 1, Seq::empty(), acc.push(cur))
        }
    } else {
        words_from(s, i + 1, cur.push(s[i]), acc)
    }
}

/// The maximal non-whitespace runs of `s`, in order.
pub open spec fn split_words(s: Seq<char>) -> Seq<Seq<char>> {
    words_from(s, 0, Seq::empty(), Seq::empty())
}

/// The words of a text: lowercase it, drop everything that is neither
/// alphanumeric nor whitespace, then split at whitespace.
pub open spec fn spec_words(text: Seq<char>) -> Seq<Seq<char>> {
    split_words(visible_chars(lower_of(text)))
}

/// The id a vocabulary assigns to a word, falling back to the unknown token.
pub open spec fn lookup_id(vocab: Map<Seq<char>, usize>, w: Seq<char>) -> usize {
    if vocab.contains_key(w) {
        vocab[w]
    } else {
        vocab[spec_unk_token()]
    }
}

/// The ids of the words of `text` under `vocab`.
pub open spec fn spec_token_ids(vocab: Map<Seq<char>, usize>, text: Seq<char>) -> Seq<usize> {
    Seq::new(spec_words(text).len(), |i: int| lookup_id(vocab, spec_words(text)[i]))
}

/// `ids` cut or padded with the padding id to exactly `max` entries.
pub open spec fn spec_padded(vocab: Map<Seq<char>, usize>, max: nat, ids: Seq<usize>) -> Seq<
    usize,
> {
    Seq::new(
        max,
        |i: int|
            if i < ids.len() {
                ids[i]
            } else {
                vocab[spec_pad_token()]
            },
    )
}

/// Splits a text into lowercased alphanumeric words.
pub fn preprocess_text(text: &str) -> (r: Vec<String>)
    ensures
        r@.len() == spec_words(text@).len(),
        forall |i: int| 0 <= i < r@.len() ==> (#[trigger] r@[i])@ == spec_words(text@)[i],
{
    let lower = lowercase(text);
    let l = lower.as_str();
    let n = l.unicode_len();

    let mut filtered = String::new();
    let mut i: usize = 0;
    while i < n
        invariant
            n == l@.len(),
            i <= n,
            filtered@ == visible_chars(l@.subrange(0, i as int)),
        decreases n - i,
    {
        let c = l.get_char(i);
        proof {
            assert(l@.subrange(0, i + 1).drop_last() =~= l@.subrange(0, i as int));
            assert(l@.subrange(0, i + 1).last() == c);
        }
        if alnum(c) || wsp(c) {
            let piece = l.substring_char(i, i + 1);
            proof {
                assert(piece@ =~= seq![c]);
            }
            filtered.append(piece);
            proof {
                assert(filtered@ =~= visible_chars(l@.subrange(0, i + 1)));
            }
        } else {
            proof {
                assert(filtered@ =~= visible_chars(l@.subrange(0, i + 1)));
            }
        }
        i += 1;
    }
    proof {
        assert(l@.subrange(0, n as int) =~= l@);
    }

    let f = filtered.as_str();
    let m = f.unicode_len();
    let mut words: Vec<String> = Vec::new();
    let ghost mut acc: Seq<Seq<char>> = Seq::empty();
    let mut start: usize = 0;
    let mut j: usize = 0;
    proof {
        assert(f@.subrange(0, 0) =~= Seq::<char>::empty());
    }
    while j < m
        invariant
            m == f@.len(),
            start <= j <= m,
            acc.len() == words@.len(),
            forall |k: int| 0 <= k < acc.len() ==> acc[k] == (#[trigger] words@[k])@,
            split_words(f@) == words_from(f@, j as int, f@.subrange(start as int, j as int), acc),
        decreases m - j,
    {
        let c = f.get_char(j);
        let ghost cur = f@.subrange(start as int, j as int);
        if wsp(c) {
            proof {
                assert(f@.subrange(j + 1, j + 1) =~= Seq::<char>::empty());
                assert(cur.len() == j - start);
            }
            if start < j {
                let w = f.substring_char(start, j);
                words.push(String::from_str(w));
                proof {
                    let acc0 = acc;
                    acc = acc.push(w@);
                    assert(acc == acc0.push(cur));
                    assert(words_from(f@, j as int, cur, acc0) == words_from(
                        f@,
                        j + 1,
                        Seq::<char>::empty(),
                        acc0.push(cur),
                    ));
                }
            } else {
                proof {
                    assert(cur =~= Seq::<char>::empty());
                    assert(words_from(f@, j as int, cur, acc) == words_from(f@, j + 1, cur, acc));
                }
            }
            start = j + 1;
        } else {
            proof {
                assert(f@.subrange(start as int, j + 1) =~= cur.push(c));
                assert(words_from(f@, j as int, cur, acc) == words_from(f@, j + 1, cur.push(c), acc));
            }
        }
        j += 1;
    }
    if start < m {
        let w = f.substring_char(start, m);
        words.push(String::from_str(w));
        proof {
            acc = acc.push(w@);
        }
    }
    words
}

/// The views of a sequence of strings.
pub open spec fn views_of(s: Seq<String>) -> Seq<Seq<char>> {
    Seq::new(s.len(), |i: int| s[i]@)
}

/// All words of all texts of a dataset, in order.
pub open spec fn dataset_words(texts: Seq<String>) -> Seq<Seq<char>>
    decreases texts.len(),
{
    if texts.len() == 0 {
        Seq::empty()
    } else {
        dataset_words(texts.drop_last()) + spec_words(texts.last()@)
    }
}

/// How often the word `w` occurs in `ws`.
pub open spec fn occ(ws: Seq<Seq<char>>, w: Seq<char>) -> nat
    decreases ws.len(),
{
    if ws.len() == 0 {
        0
    } else {
        occ(ws.drop_last(), w) + (if ws.last() == w {
            1nat
        } else {
            0nat
        })
    }
}

/// A word cannot occur more often than there are words.
proof fn lemma_occ_le(ws: Seq<Seq<char>>, w: Seq<char>)
    ensures
        occ(ws, w) <= ws.len(),
    decreases ws.len(),
{
    if ws.len() > 0 {
        lemma_occ_le(ws.drop_last(), w);
    }
}

/// How many distinct words occur in `ws`.
pub open spec fn num_distinct(ws: Seq<Seq<char>>) -> nat
    decreases ws.len(),
{
    if ws.len() == 0 {
        0
    } else {
        num_distinct(ws.drop_last()) + (if occ(ws.drop_last(), ws.last()) > 0 {
            0nat
        } else {
            1nat
        })
    }
}

/// Whether `w` is one of the listed special tokens.
pub open spec fn is_special_in(ts: Seq<&str>, w: Seq<char>) -> bool {
    exists |i: int| 0 <= i < ts.len() && (#[trigger] ts[i])@ == w
}

/// No two of the listed tokens read the same.
pub open spec fn distinct_tokens(ts: Seq<&str>) -> bool {
    forall |i: int, j: int| 0 <= i < j < ts.len() ==> (#[trigger] ts[i])@ != (#[trigger] ts[j])@
}

/// The special tokens are pairwise distinct and none occurs as a corpus word.
pub open spec fn specials_clear_of(ws: Seq<Seq<char>>, ts: Seq<&str>) -> bool {
    distinct_tokens(ts) && (forall |i: int| 0 <= i < ts.len() ==> occ(ws, (#[trigger] ts[i])@)
        == 0)
}

/// How many corpus words the vocabulary takes: the room the size limit leaves
/// after the `k` special tokens, capped by the `nd` distinct words on offer.
pub open spec fn spec_word_room(max_vocab_size: Option<usize>, k: int, nd: int) -> int {
    let cap = match max_vocab_size {
        Some(m) => m as int,
        None => nd,
    };
    let avail = if cap >= k {
        cap - k
    } else {
        0
    };
    if avail <= nd {
        avail
    } else {
        nd
    }
}

/// Gathers the words of every text of the dataset, in order.
fn collect_words(dataset: &[String]) -> (r: Vec<String>)
    ensures
        r@.len() == dataset_words(dataset@).len(),
        forall |i: int| 0 <= i < r@.len() ==> (#[trigger] r@[i])@ == dataset_words(dataset@)[i],
{
    let mut all: Vec<String> = Vec::new();
    let n = dataset.len();
    let mut t: usize = 0;
    proof {
        assert(dataset@.subrange(0, 0) =~= Seq::<String>::empty());
    }
    while t < n
        invariant
            n == dataset@.len(),
            t <= n,
            all@.len() == dataset_words(dataset@.subrange(0, t as int)).len(),
            forall |i: int| 0 <= i < all@.len() ==> (#[trigger] all@[i])@ == dataset_words(
                dataset@.subrange(0, t as int),
            )[i],
        decreases n - t,
    {
        let mut ws = preprocess_text(dataset[t].as_str());
        proof {
            assert(dataset@.subrange(0, t + 1).drop_last() =~= dataset@.subrange(0, t as int));
            assert(dataset@.subrange(0, t + 1).last() == dataset@[t as int]);
        }
        all.append(&mut ws);
        t += 1;
    }
    proof {
        assert(dataset@.subrange(0, n as int) =~= dataset@);
    }
    all
}

/// Counts how often each distinct word occurs, one pair per word.
fn word_counts(words: &Vec<String>) -> (r: Vec<(String, usize)>)
    ensures
        crate::vocab::distinct_keys(r@),
        r@.len() == num_distinct(views_of(words@)),
        forall |i: int| 0 <= i < r@.len() ==> (#[trigger] r@[i]).1 == occ(
            views_of(words@),
            r@[i].0@,
        ) && occ(views_of(words@), r@[i].0@) > 0,
        forall |w: Seq<char>| occ(views_of(words@), w) > 0 ==> exists |i: int| 0 <= i < r@.len()
            && (#[trigger] r@[i]).0@ == w,
{
    let ghost ws = views_of(words@);
    let mut counts: Vec<(String, usize)> = Vec::new();
    let n = words.len();
    let mut t: usize = 0;
    proof {
        assert(ws.subrange(0, 0) =~= Seq::<Seq<char>>::empty());
    }
    while t < n
        invariant
            n == words@.len(),
            t <= n,
            ws == views_of(words@),
            ws.len() == n,
            crate::vocab::distinct_keys(counts@),
            counts@.len() == num_distinct(ws.subrange(0, t as int)),
            forall |i: int| 0 <= i < counts@.len() ==> (#[trigger] counts@[i]).1 == occ(
                ws.subrange(0, t as int),
                counts@[i].0@,
            ) && occ(ws.subrange(0, t as int), counts@[i].0@) > 0,
            forall |w: Seq<char>| #[trigger] occ(ws.subrange(0, t as int), w) > 0 ==> exists |i: int|
                0 <= i < counts@.len() && (#[trigger] counts@[i]).0@ == w,
        decreases n - t,
    {
        let ghost pre = ws.subrange(0, t as int);
        proof {
            assert(ws.subrange(0, t + 1).drop_last() =~= pre);
            assert(ws.subrange(0, t + 1).last() == words@[t as int]@);
        }
        let word = &words[t];
        let m = counts.len();
        let mut k: usize = 0;
        let mut found = false;
        while k < m && !found
            invariant
                m == counts@.len(),
                k <= m,
                found ==> k < m && (#[trigger] counts@[k as int]).0@ == word@,
                !found ==> forall |p: int| 0 <= p < k ==> (#[trigger] counts@[p]).0@ != word@,
            decreases m - k + (if found { 0int } else { 1int }),
        {
            if counts[k].0 == *word {
                found = true;
            } else {
                k += 1;
            }
        }
        if found {
            proof {
                lemma_occ_le(pre, counts@[k as int].0@);
                assert(occ(pre, word@) > 0);
                assert(num_distinct(ws.subrange(0, t + 1)) == num_distinct(pre));
            }
            let ghost orig = counts@;
            let pair = counts.remove(k);
            let newc = pair.1 + 1;
            let ghost newpair = (orig[k as int].0, newc);
            counts.insert(k, (pair.0, newc));
            proof {
                assert(counts@ =~= orig.update(k as int, newpair));
                assert(newpair.0@ == word@);
                assert(forall |p: int| 0 <= p < counts@.len() ==>
                    (#[trigger] counts@[p]).0@ == orig[p].0@);
                assert forall |i: int| 0 <= i < counts@.len() implies
                    (#[trigger] counts@[i]).1 == occ(ws.subrange(0, t + 1), counts@[i].0@)
                        && occ(ws.subrange(0, t + 1), counts@[i].0@) > 0 by {
                    if i == k {
                        assert(occ(ws.subrange(0, t + 1), newpair.0@) == occ(pre, newpair.0@) + 1);
                    } else {
                        assert(counts@[i] == orig[i]);
                        assert(counts@[i].0@ != newpair.0@);
                        assert(occ(ws.subrange(0, t + 1), counts@[i].0@) == occ(
                            pre,
                            counts@[i].0@,
                        ));
                    }
                }
                assert forall |w: Seq<char>| #[trigger] occ(ws.subrange(0, t + 1), w) > 0 implies
                    exists |i: int| 0 <= i < counts@.len() && (#[trigger] counts@[i]).0@ == w by {
                    if w == word@ {
                        assert(counts@[k as int].0@ == w);
                    } else {
                        assert(occ(pre, w) > 0);
                        let i = choose |i: int| 0 <= i < orig.len()
                            && (#[trigger] orig[i]).0@ == w;
                        assert(counts@[i].0@ == w);
                    }
                }
            }
        } else {
            let ghost prior = counts@;
            counts.push((word.clone(), 1));
            proof {
                assert(counts@.drop_last() =~= prior);
                assert(occ(pre, word@) == 0) by {
                    if occ(pre, word@) > 0 {
                        let i = choose |i: int| 0 <= i < prior.len()
                            && (#[trigger] prior[i]).0@ == word@;
                    }
                }
                assert forall |w: Seq<char>| #[trigger] occ(ws.subrange(0, t + 1), w) > 0 implies
                    exists |i: int| 0 <= i < counts@.len() && (#[trigger] counts@[i]).0@ == w by {
                    if w == word@ {
                        assert(counts@[counts@.len() - 1].0@ == w);
                    } else {
                        assert(occ(pre, w) > 0);
                        let i = choose |i: int| 0 <= i < prior.len()
                            && (#[trigger] prior[i]).0@ == w;
                        assert(counts@[i].0@ == w);
                    }
                }
            }
        }
        t += 1;
    }
    proof {
        assert(ws.subrange(0, n as int) =~= ws);
    }
    counts
}

/// Ordered by descending count.
pub open spec fn sorted_desc(s: Seq<(String, usize)>) -> bool {
    forall |i: int, j: int| 0 <= i < j < s.len() ==> (#[trigger] s[i]).1 >= (#[trigger] s[j]).1
}

/// Every pair of `s` occurs among the first `t` pairs of `orig`.
#[verifier::opaque]
pub open spec fn pairs_from(s: Seq<(String, usize)>, orig: Seq<(String, usize)>, t: int) -> bool {
    forall |i: int| 0 <= i < s.len() ==> exists |j: int| 0 <= j < t && #[trigger] s[i] == orig[j]
}

/// Each of the first `t` pairs of `orig` occurs in `s`.
#[verifier::opaque]
pub open spec fn pairs_cover(orig: Seq<(String, usize)>, t: int, s: Seq<(String, usize)>) -> bool {
    forall |j: int| 0 <= j < t ==> exists |i: int| 0 <= i < s.len() && #[trigger] orig[j] == s[i]
}

/// Inserting at the found position keeps the list ordered by descending count.
proof fn lemma_sorted_insert(before: Seq<(String, usize)>, idx: int, x: (String, usize))
    requires
        0 <= idx <= before.len(),
        sorted_desc(before),
        forall |p: int| 0 <= p < idx ==> (#[trigger] before[p]).1 >= x.1,
        idx < before.len() ==> before[idx].1 < x.1,
    ensures
        sorted_desc(before.insert(idx, x)),
{
    before.insert_ensures(idx, x);
    let s = before.insert(idx, x);
    assert forall |i: int, j: int| 0 <= i < j < s.len() implies (#[trigger] s[i]).1 >= (
    #[trigger] s[j]).1 by {
        if j < idx {
        } else if i > idx {
            assert(s[i] == before[i - 1] && s[j] == before[j - 1]);
        } else if i < idx && j == idx {
            assert(s[i] == before[i] && s[j] == x);
        } else if i == idx && j > idx {
            assert(s[i] == x && s[j] == before[j - 1]);
            if idx < j - 1 {
                assert(before[idx].1 >= before[j - 1].1);
            }
        } else if i < idx && j > idx {
            assert(s[i] == before[i] && s[j] == before[j - 1]);
            assert(s[i].1 >= x.1);
            if idx < j - 1 {
                assert(before[idx].1 >= before[j - 1].1);
            }
        }
    }
}

/// Inserting the next input pair extends the two-way membership between the
/// input prefix and the ordered list.
proof fn lemma_membership_insert(
    before: Seq<(String, usize)>,
    idx: int,
    orig: Seq<(String, usize)>,
    t: int,
)
    requires
        0 <= idx <= before.len(),
        0 <= t < orig.len(),
        pairs_from(before, orig, t),
        pairs_cover(orig, t, before),
    ensures
        pairs_from(before.insert(idx, orig[t]), orig, t + 1),
        pairs_cover(orig, t + 1, before.insert(idx, orig[t])),
{
    reveal(pairs_from);
    reveal(pairs_cover);
    before.insert_ensures(idx, orig[t]);
    let s = before.insert(idx, orig[t]);
    assert forall |i: int| 0 <= i < s.len() implies exists |j: int| 0 <= j < t + 1
        && #[trigger] s[i] == orig[j] by {
        if i < idx {
            let j = choose |j: int| 0 <= j < t && #[trigger] before[i] == orig[j];
            assert(s[i] == orig[j]);
        } else if i == idx {
            assert(s[i] == orig[t]);
        } else {
            let j = choose |j: int| 0 <= j < t && #[trigger] before[i - 1] == orig[j];
            assert(s[i] == orig[j]);
        }
    }
    assert forall |j: int| 0 <= j < t + 1 implies exists |i: int| 0 <= i < s.len()
        && #[trigger] orig[j] == s[i] by {
        if j == t {
            assert(orig[j] == s[idx]);
        } else {
            let i = choose |i: int| 0 <= i < before.len() && #[trigger] orig[j] == before[i];
            if i < idx {
                assert(orig[j] == s[i]);
            } else {
                assert(orig[j] == s[i + 1]);
            }
        }
    }
}

/// When the input pairs carry distinct keys, inserting the next one keeps the
/// ordered list's keys distinct.
proof fn lemma_distinct_insert(
    before: Seq<(String, usize)>,
    idx: int,
    orig: Seq<(String, usize)>,
    t: int,
)
    requires
        0 <= idx <= before.len(),
        0 <= t < orig.len(),
        pairs_from(before, orig, t),
        crate::vocab::distinct_keys(orig),
        crate::vocab::distinct_keys(before),
    ensures
        crate::vocab::distinct_keys(before.insert(idx, orig[t])),
{
    reveal(pairs_from);
    before.insert_ensures(idx, orig[t]);
    let s = before.insert(idx, orig[t]);
    assert forall |i: int, j: int| 0 <= i < j < s.len() implies (#[trigger] s[i]).0@ != (
    #[trigger] s[j]).0@ by {
        if i != idx && j != idx {
            let i0 = if i < idx { i } else { i - 1 };
            let j0 = if j < idx { j } else { j - 1 };
            assert(s[i] == before[i0] && s[j] == before[j0]);
        } else {
            let other = if i == idx { j } else { i };
            let o0 = if other < idx { other } else { other - 1 };
            assert(s[other] == before[o0]);
            let q = choose |q: int| 0 <= q < t && #[trigger] before[o0] == orig[q];
            assert(orig[q].0@ != orig[t as int].0@);
        }
    }
}

/// Orders count pairs by descending count.  Every pair of the result comes
/// from the input and every input pair reappears in the result.
fn sort_by_count_desc(v: Vec<(String, usize)>) -> (r: Vec<(String, usize)>)
    requires
        crate::vocab::distinct_keys(v@),
    ensures
        r@.len() == v@.len(),
        sorted_desc(r@),
        crate::vocab::distinct_keys(r@),
        pairs_from(r@, v@, v@.len() as int),
        pairs_cover(v@, v@.len() as int, r@),
{
    let ghost orig = v@;
    let mut rest = v;
    let mut out: Vec<(String, usize)> = Vec::new();
    let mut t: usize = 0;
    let n = rest.len();
    proof {
        reveal(pairs_from);
        reveal(pairs_cover);
        assert(pairs_from(out@, orig, 0));
        assert(pairs_cover(orig, 0, out@));
    }
    while t < n
        invariant
            n == orig.len(),
            t <= n,
            rest@ == orig.subrange(t as int, n as int),
            out@.len() == t,
            sorted_desc(out@),
            crate::vocab::distinct_keys(orig),
            crate::vocab::distinct_keys(out@),
            pairs_from(out@, orig, t as int),
            pairs_cover(orig, t as int, out@),
        decreases n - t,
    {
        let x = rest.remove(0);
        proof {
            assert(x == orig[t as int]);
            assert(rest@ =~= orig.subrange(t + 1, n as int));
        }
        let m = out.len();
        let mut idx: usize = 0;
        while idx < m && out[idx].1 >= x.1
            invariant
                m == out@.len(),
                idx <= m,
                forall |p: int| 0 <= p < idx ==> (#[trigger] out@[p]).1 >= x.1,
            decreases m - idx,
        {
            idx += 1;
        }
        let ghost before = out@;
        let ghost xg = x;
        out.insert(idx, x);
        proof {
            lemma_sorted_insert(before, idx as int, xg);
            lemma_membership_insert(before, idx as int, orig, t as int);
            lemma_distinct_insert(before, idx as int, orig, t as int);
            assert(out@ == before.insert(idx as int, orig[t as int]));
        }
        t += 1;
    }
    proof {
        assert(orig == v@);
    }
    out
}

/// Tokenization and padding around a fixed vocabulary.
pub struct Tokenizer {
    pub vocab: Vocab,
    pub max_seq_length: usize,
}

impl Tokenizer {
    /// The vocabulary is well formed and holds the two special tokens.
    pub open spec fn wf(&self) -> bool {
        &&& self.vocab.wf()
        &&& self.vocab@.contains_key(spec_pad_token())
        &&& self.vocab@.contains_key(spec_unk_token())
    }

    /// Whether `vocab` holds both required special tokens.
    pub fn verify_vocab(vocab: &Vocab) -> (r: bool)
        requires
            vocab.wf(),
        ensures
            r == (vocab@.contains_key(spec_pad_token()) && vocab@.contains_key(spec_unk_token())),
    {
        vocab.contains(pad_token()) && vocab.contains(unk_token())
    }

    /// A tokenizer over `vocab`, padding to `max_seq_length` ids.
    pub fn new(vocab: Vocab, max_seq_length: usize) -> (r: Tokenizer)
        requires
            vocab.wf(),
            vocab@.contains_key(spec_pad_token()),
            vocab@.contains_key(spec_unk_token()),
        ensures
            r.wf(),
            r.vocab@ == vocab@,
            r.max_seq_length == max_seq_length,
    {
        Tokenizer { vocab, max_seq_length }
    }

    /// The ids of the words of `text`; words outside the vocabulary map to the
    /// unknown token's id.
    pub fn tokenize(&self, text: &str) -> (r: Vec<usize>)
        requires
            self.wf(),
        ensures
            r@ == spec_token_ids(self.vocab@, text@),
    {
        let words = preprocess_text(text);
        let unk_id = match self.vocab.get(unk_token()) {
            Some(id) => id,
            None => 0,
        };
        let mut ids: Vec<usize> = Vec::new();
        let n = words.len();
        let mut i: usize = 0;
        while i < n
            invariant
                self.wf(),
                n == words@.len(),
                i <= n,
                n == spec_words(text@).len(),
                forall |k: int| 0 <= k < n ==> (#[trigger] words@[k])@ == spec_words(text@)[k],
                unk_id == self.vocab@[spec_unk_token()],
                ids@.len() == i,
                forall |k: int| 0 <= k < i ==> ids@[k] == lookup_id(
                    self.vocab@,
                    spec_words(text@)[k],
                ),
            decreases n - i,
        {
            let id = match self.vocab.get(words[i].as_str()) {
                Some(id) => id,
                None => unk_id,
            };
            ids.push(id);
            i += 1;
        }
        proof {
            assert(ids@ =~= spec_token_ids(self.vocab@, text@));
        }
        ids
    }

    /// `sequence` cut or padded with the padding id to the maximum length.
    pub fn pad_sequence(&self, sequence: Vec<usize>) -> (r: Vec<usize>)
        requires
            self.wf(),
        ensures
            r@ == spec_padded(self.vocab@, self.max_seq_length as nat, sequence@),
    {
        let pad_id = match self.vocab.get(pad_token()) {
            Some(id) => id,
            None => 0,
        };
        let mut padded = sequence;
        padded.resize(self.max_seq_length, pad_id);
        proof {
            assert(padded@ =~= spec_padded(self.vocab@, self.max_seq_length as nat, sequence@));
        }
        padded
    }

    /// Builds a vocabulary from a dataset: the special tokens get the first
    /// ids, then the dataset's words follow by descending frequency until the
    /// size limit is reached.
    pub fn build_vocab(
        dataset: &[String],
        special_tokens: &[&str],
        max_vocab_size: Option<usize>,
    ) -> (r: Vocab)
        requires
            max_vocab_size matches Some(m) ==> m >= special_tokens@.len(),
        ensures
            r.wf(),
            forall |i: int| 0 <= i < special_tokens@.len() ==> r@.contains_key(
                (#[trigger] special_tokens@[i])@,
            ),
            forall |w: Seq<char>| #[trigger] r@.contains_key(w) ==> is_special_in(
                special_tokens@,
                w,
            ) || occ(dataset_words(dataset@), w) > 0,
            max_vocab_size matches Some(m) ==> r@.dom().len() <= m,
            distinct_tokens(special_tokens@) ==> forall |i: int|
                0 <= i < special_tokens@.len() && occ(
                    dataset_words(dataset@),
                    (#[trigger] special_tokens@[i])@,
                ) == 0 ==> r@[special_tokens@[i]@] == i,
            forall |w1: Seq<char>, w2: Seq<char>|
                #![trigger r@.contains_key(w1), r@.contains_key(w2)]
                r@.contains_key(w1) && !is_special_in(special_tokens@, w1) && occ(
                    dataset_words(dataset@),
                    w2,
                ) > 0 && !r@.contains_key(w2) ==> occ(dataset_words(dataset@), w1) >= occ(
                    dataset_words(dataset@),
                    w2,
                ),
            spec_word_room(
                max_vocab_size,
                special_tokens@.len() as int,
                num_distinct(dataset_words(dataset@)) as int,
            ) == num_distinct(dataset_words(dataset@)) ==> forall |w: Seq<char>| #[trigger] occ(
                dataset_words(dataset@),
                w,
            ) > 0 ==> r@.contains_key(w),
            specials_clear_of(dataset_words(dataset@), special_tokens@) ==> r@.dom().len()
                == special_tokens@.len() + spec_word_room(
                max_vocab_size,
                special_tokens@.len() as int,
                num_distinct(dataset_words(dataset@)) as int,
            ),
            specials_clear_of(dataset_words(dataset@), special_tokens@) ==> forall |w: Seq<char>|
                #[trigger] r@.contains_key(w) && !is_special_in(special_tokens@, w)
                ==> special_tokens@.len() <= r@[w] < special_tokens@.len() + spec_word_room(
                max_vocab_size,
                special_tokens@.len() as int,
                num_distinct(dataset_words(dataset@)) as int,
            ),
            specials_clear_of(dataset_words(dataset@), special_tokens@) ==> forall |
                w1: Seq<char>,
                w2: Seq<char>,
            |
                #![trigger r@[w1], r@[w2]]
                r@.contains_key(w1) && r@.contains_key(w2) && w1 != w2 ==> r@[w1] != r@[w2],
    {
        let ghost ws = dataset_words(dataset@);
        let all = collect_words(dataset);
        let counts = word_counts(&all);
        proof {
            assert(views_of(all@) =~= ws);
        }
        let ghost cv = counts@;
        let sorted = sort_by_count_desc(counts);
        proof {
            reveal(pairs_from);
            reveal(pairs_cover);
            assert forall |p: int| 0 <= p < sorted@.len() implies (#[trigger] sorted@[p]).1 == occ(
                ws,
                sorted@[p].0@,
            ) && occ(ws, sorted@[p].0@) > 0 by {
                let q = choose |q: int| 0 <= q < cv.len() && #[trigger] sorted@[p] == cv[q];
            }
        }

        let ghost nd = num_distinct(ws) as int;
        proof {
            assert(sorted@.len() == nd);
        }
        let mut vocab = Vocab::new();
        let k = special_tokens.len();
        let mut i: usize = 0;
        while i < k
            invariant
                vocab.wf(),
                k == special_tokens@.len(),
                i <= k,
                vocab@.dom().finite(),
                vocab@.dom().len() <= i,
                distinct_tokens(special_tokens@) ==> vocab@.dom().len() == i,
                forall |w: Seq<char>| #[trigger] vocab@.contains_key(w) ==> exists |a: int|
                    0 <= a < i && (#[trigger] special_tokens@[a])@ == w,
                forall |a: int| 0 <= a < i ==> vocab@.contains_key(
                    (#[trigger] special_tokens@[a])@,
                ),
                distinct_tokens(special_tokens@) ==> forall |a: int| 0 <= a < i ==> vocab@[(
                #[trigger] special_tokens@[a])@] == a,
            decreases k - i,
        {
            let ghost old_v = vocab@;
            vocab.insert(special_tokens[i], i);
            proof {
                vocab.lemma_dom_finite();
                assert(vocab@.dom() =~= old_v.dom().insert(special_tokens@[i as int]@));
                if distinct_tokens(special_tokens@) {
                    assert(!old_v.contains_key(special_tokens@[i as int]@)) by {
                        if old_v.contains_key(special_tokens@[i as int]@) {
                            let a = choose |a: int| 0 <= a < i && (
                            #[trigger] special_tokens@[a])@ == special_tokens@[i as int]@;
                        }
                    }
                }
                assert forall |w: Seq<char>| #[trigger] vocab@.contains_key(w) implies exists |
                    a: int,
                |
                    0 <= a < i + 1 && (#[trigger] special_tokens@[a])@ == w by {
                    if w == special_tokens@[i as int]@ {
                        assert(special_tokens@[i as int]@ == w);
                    } else {
                        let a = choose |a: int| 0 <= a < i && (#[trigger] special_tokens@[a])@
                            == w;
                    }
                }
            }
            i += 1;
        }

        let mvs = match max_vocab_size {
            Some(m) => m,
            None => sorted.len(),
        };
        let avail = if mvs >= k {
            mvs - k
        } else {
            0
        };
        let take_n = if avail <= sorted.len() {
            avail
        } else {
            sorted.len()
        };
        let mut j: usize = 0;
        let mut index: usize = k;
        while j < take_n
            invariant
                vocab.wf(),
                k == special_tokens@.len(),
                take_n <= sorted@.len(),
                j <= take_n,
                index == k + j,
                k + take_n <= usize::MAX,
                ws == dataset_words(dataset@),
                vocab@.dom().finite(),
                vocab@.dom().len() <= index,
                nd == num_distinct(ws),
                sorted@.len() == nd,
                crate::vocab::distinct_keys(sorted@),
                specials_clear_of(ws, special_tokens@) ==> vocab@.dom().len() == index,
                specials_clear_of(ws, special_tokens@) ==> forall |p: int| 0 <= p < j ==> vocab@[(
                #[trigger] sorted@[p]).0@] == k + p,
                forall |p: int| 0 <= p < sorted@.len() ==> (#[trigger] sorted@[p]).1 == occ(
                    ws,
                    sorted@[p].0@,
                ) && occ(ws, sorted@[p].0@) > 0,
                forall |w: Seq<char>| #[trigger] vocab@.contains_key(w) ==> is_special_in(
                    special_tokens@,
                    w,
                ) || exists |p: int| 0 <= p < j && (#[trigger] sorted@[p]).0@ == w,
                forall |p: int| 0 <= p < j ==> vocab@.contains_key((#[trigger] sorted@[p]).0@),
                forall |a: int| 0 <= a < k ==> vocab@.contains_key(
                    (#[trigger] special_tokens@[a])@,
                ),
                distinct_tokens(special_tokens@) ==> forall |a: int| 0 <= a < k && occ(
                    ws,
                    (#[trigger] special_tokens@[a])@,
                ) == 0 ==> vocab@[special_tokens@[a]@] == a,
            decreases take_n - j,
        {
            let ghost old_v = vocab@;
            let key = &sorted[j].0;
            vocab.insert(key.as_str(), index);
            proof {
                vocab.lemma_dom_finite();
                assert(vocab@.dom() =~= old_v.dom().insert(key@));
                assert(key@ == sorted@[j as int].0@);
                if specials_clear_of(ws, special_tokens@) {
                    assert(occ(ws, key@) > 0);
                    assert(!old_v.contains_key(key@)) by {
                        if old_v.contains_key(key@) {
                            if is_special_in(special_tokens@, key@) {
                                let a = choose |a: int| 0 <= a < special_tokens@.len() && (
                                #[trigger] special_tokens@[a])@ == key@;
                                assert(occ(ws, special_tokens@[a]@) == 0);
                            } else {
                                let p = choose |p: int| 0 <= p < j && (#[trigger] sorted@[p]).0@
                                    == key@;
                            }
                        }
                    }
                }
                assert forall |w: Seq<char>| #[trigger] vocab@.contains_key(w) implies
                    is_special_in(special_tokens@, w) || exists |p: int| 0 <= p < j + 1 && (
                    #[trigger] sorted@[p]).0@ == w by {
                    if w == key@ {
                        assert(sorted@[j as int].0@ == w);
                    } else {
                        assert(old_v.contains_key(w));
                    }
                }
                assert(occ(ws, key@) > 0);
            }
            index += 1;
            j += 1;
        }

        proof {
            assert forall |w1: Seq<char>, w2: Seq<char>|
                #![trigger vocab@.contains_key(w1), vocab@.contains_key(w2)]
                vocab@.contains_key(w1) && !is_special_in(special_tokens@, w1) && occ(ws, w2) > 0
                    && !vocab@.contains_key(w2) implies occ(ws, w1) >= occ(ws, w2) by {
                let p1 = choose |p: int| 0 <= p < j && (#[trigger] sorted@[p]).0@ == w1;
                let q2 = choose |q: int| 0 <= q < cv.len() && (#[trigger] cv[q]).0@ == w2;
                reveal(pairs_cover);
                let p2 = choose |p: int| 0 <= p < sorted@.len() && #[trigger] cv[q2] == sorted@[p];
                assert(sorted@[p2].0@ == w2);
                assert(p2 >= take_n);
                assert(sorted@[p1].1 >= sorted@[p2].1);
            }
        }
        vocab
    }

    /// Tokenizes and pads every text of a batch.
    pub fn tokenize_and_pad_batch(&self, texts: &[String]) -> (r: Vec<Vec<usize>>)
        requires
            self.wf(),
        ensures
            r@.len() == texts@.len(),
            forall |i: int| 0 <= i < r@.len() ==> (#[trigger] r@[i])@ == spec_padded(
                self.vocab@,
                self.max_seq_length as nat,
                spec_token_ids(self.vocab@, texts@[i]@),
            ),
    {
        let mut out: Vec<Vec<usize>> = Vec::new();
        let n = texts.len();
        let mut i: usize = 0;
        while i < n
            invariant
                self.wf(),
                n == texts@.len(),
                i <= n,
                out@.len() == i,
                forall |k: int| 0 <= k < i ==> (#[trigger] out@[k])@ == spec_padded(
                    self.vocab@,
                    self.max_seq_length as nat,
                    spec_token_ids(self.vocab@, texts@[k]@),
                ),
            decreases n - i,
        {
            let ids = self.tokenize(texts[i].as_str());
            let padded = self.pad_sequence(ids);
            out.push(padded);
            i += 1;
        }
        out
    }
}

} // verus!
