use vstd::prelude::*;
use vstd::slice::{slice_subrange, slice_to_vec};
use std::cmp::Ordering;
use crate::delims::DelimSet;
use crate::lex::{compare_words, lex_lt, lemma_lex_irreflexive, lemma_lex_total, lemma_lex_transitive};
use crate::table::{Table, table_view, tcount, wf_table, lemma_tcount_concat, lemma_tcount_at};

verus! {

/// The words of `s`: its maximal runs of bytes outside `d`, in order.
///
/// A byte outside `d` opens a word of its own, unless the next byte is outside `d` too: then it
/// is glued in front of the word that the next byte begins.
pub open spec fn tokens(s: Seq<u8>, d: Set<u8>) -> Seq<Seq<u8>>
    decreases s.len(),
{
    if s.len() == 0 {
        seq![]
    } else if d.contains(s[0]) {
        tokens(s.drop_first(), d)
    } else {
        let t = tokens(s.drop_first(), d);
        if s.len() > 1 && !d.contains(s[1]) {
            t.update(0, seq![s[0]] + t[0])
        } else {
            seq![seq![s[0]]] + t
        }
    }
}

/// How many times `w` occurs in the list of words `ts`.
pub open spec fn occurrences(ts: Seq<Seq<u8>>, w: Seq<u8>) -> nat
    decreases ts.len(),
{
    if ts.len() == 0 {
        0
    } else {
        (if ts[0] == w { 1nat } else { 0nat }) + occurrences(ts.drop_first(), w)
    }
}

/// `t` is the frequency table of the words `ts`: well formed, and each word counted as often as
/// it occurs.
pub open spec fn is_table_of(t: Seq<(Seq<u8>, nat)>, ts: Seq<Seq<u8>>) -> bool {
    &&& wf_table(t)
    &&& forall|w: Seq<u8>| #[trigger] tcount(t, w) == occurrences(ts, w)
}

/// A piece that starts with a word byte yields at least one word.
proof fn lemma_tokens_start(s: Seq<u8>, d: Set<u8>)
    requires
        s.len() > 0,
        !d.contains(s[0]),
    ensures
        tokens(s, d).len() > 0,
    decreases s.len(),
{
    if s.len() > 1 && !d.contains(s[1]) {
        lemma_tokens_start(s.drop_first(), d);
    }
}

/// Splitting a buffer where a word cannot continue (at a delimiter) splits its words.
pub proof fn lemma_tokens_concat(x: Seq<u8>, y: Seq<u8>, d: Set<u8>)
    requires
        x.len() == 0 || y.len() == 0 || d.contains(y[0]) || d.contains(x.last()),
    ensures
        tokens(x + y, d) == tokens(x, d) + tokens(y, d),
    decreases x.len(),
{
    if x.len() == 0 {
        assert(x + y == y);
    } else if y.len() == 0 {
        assert(x + y == x);
    } else {
        let xs = x.drop_first();
        assert((x + y).drop_first() == xs + y);
        lemma_tokens_concat(xs, y, d);
        if !d.contains(x[0]) {
            if x.len() > 1 {
                assert((x + y)[1] == x[1]);
                if !d.contains(x[1]) {
                    lemma_tokens_start(xs, d);
                    let t = tokens(xs, d);
                    assert((t + tokens(y, d)).update(0, seq![x[0]] + t[0]) == t.update(
                        0,
                        seq![x[0]] + t[0],
                    ) + tokens(y, d));
                } else {
                    assert(seq![seq![x[0]]] + (tokens(xs, d) + tokens(y, d)) == (seq![seq![x[0]]]
                        + tokens(xs, d)) + tokens(y, d));
                }
            } else {
                assert(xs + y == y);
                assert(xs.len() == 0);
                assert((x + y)[1] == y[0]);
                assert(tokens(x, d) == seq![seq![x[0]]]);
                assert(tokens(xs, d) + tokens(y, d) == tokens(y, d));
            }
        }
    }
}

/// A run of word bytes is a single word.
pub proof fn lemma_tokens_word(w: Seq<u8>, d: Set<u8>)
    requires
        w.len() > 0,
        forall|i: int| 0 <= i < w.len() ==> !d.contains(#[trigger] w[i]),
    ensures
        tokens(w, d) == seq![w],
    decreases w.len(),
{
    if w.len() > 1 {
        let ws = w.drop_first();
        assert forall|i: int| 0 <= i < ws.len() implies !d.contains(#[trigger] ws[i]) by {
            assert(ws[i] == w[i + 1]);
        }
        lemma_tokens_word(ws, d);
        assert(!d.contains(w[1]));
        assert(seq![w[0]] + ws == w);
        assert(seq![ws].update(0, seq![w[0]] + ws) == seq![w]);
    } else {
        assert(seq![w[0]] == w);
        assert(w.drop_first().len() == 0);
        assert(tokens(w.drop_first(), d) == Seq::<Seq<u8>>::empty());
        assert(seq![seq![w[0]]] + Seq::<Seq<u8>>::empty() == seq![w]);
    }
}

/// There are no more words than bytes.
pub proof fn lemma_tokens_len(s: Seq<u8>, d: Set<u8>)
    ensures
        tokens(s, d).len() <= s.len(),
    decreases s.len(),
{
    if s.len() > 0 {
        lemma_tokens_len(s.drop_first(), d);
        let t = tokens(s.drop_first(), d);
        if !d.contains(s[0]) {
            if s.len() > 1 && !d.contains(s[1]) {
                lemma_tokens_start(s.drop_first(), d);
                assert(tokens(s, d).len() == t.len());
            } else {
                assert(tokens(s, d).len() == t.len() + 1);
            }
        }
    }
}

/// A non-empty run of bytes outside `d`.
pub open spec fn is_word(w: Seq<u8>, d: Set<u8>) -> bool {
    &&& w.len() > 0
    &&& forall|k: int| 0 <= k < w.len() ==> !d.contains(#[trigger] w[k])
}

/// Every word of a buffer is non-empty and holds no delimiter.
pub proof fn lemma_tokens_are_words(s: Seq<u8>, d: Set<u8>)
    ensures
        forall|i: int| 0 <= i < tokens(s, d).len() ==> is_word(#[trigger] tokens(s, d)[i], d),
    decreases s.len(),
{
    if s.len() > 0 {
        lemma_tokens_are_words(s.drop_first(), d);
        let t = tokens(s.drop_first(), d);
        if !d.contains(s[0]) {
            if s.len() > 1 && !d.contains(s[1]) {
                lemma_tokens_start(s.drop_first(), d);
                let w = seq![s[0]] + t[0];
                assert(is_word(t[0], d));
                assert forall|k: int| 0 <= k < w.len() implies !d.contains(#[trigger] w[k]) by {
                    if k > 0 {
                        assert(w[k] == t[0][k - 1]);
                    }
                }
                assert forall|i: int| 0 <= i < tokens(s, d).len() implies is_word(
                    #[trigger] tokens(s, d)[i],
                    d,
                ) by {
                    if i > 0 {
                        assert(tokens(s, d)[i] == t[i]);
                    }
                }
            } else {
                assert forall|i: int| 0 <= i < tokens(s, d).len() implies is_word(
                    #[trigger] tokens(s, d)[i],
                    d,
                ) by {
                    if i > 0 {
                        assert(tokens(s, d)[i] == t[i - 1]);
                    } else {
                        assert(tokens(s, d)[0] == seq![s[0]]);
                    }
                }
            }
        }
    }
}

/// A word with a positive number of occurrences is one of the words of the list.
proof fn lemma_occurs_in(ts: Seq<Seq<u8>>, w: Seq<u8>) -> (i: int)
    requires
        occurrences(ts, w) > 0,
    ensures
        0 <= i < ts.len(),
        ts[i] == w,
    decreases ts.len(),
{
    if ts[0] == w {
        0
    } else {
        let j = lemma_occurs_in(ts.drop_first(), w);
        j + 1
    }
}

/// Every key of the frequency table of a buffer is one of its words: non-empty and free of
/// delimiters.
pub proof fn lemma_table_keys_are_words(t: Seq<(Seq<u8>, nat)>, s: Seq<u8>, d: Set<u8>)
    requires
        is_table_of(t, tokens(s, d)),
    ensures
        forall|i: int| 0 <= i < t.len() ==> is_word(#[trigger] t[i].0, d),
{
    assert forall|i: int| 0 <= i < t.len() implies is_word(#[trigger] t[i].0, d) by {
        lemma_tcount_at(t, i);
        assert(occurrences(tokens(s, d), t[i].0) > 0);
        let j = lemma_occurs_in(tokens(s, d), t[i].0);
        lemma_tokens_are_words(s, d);
        assert(is_word(tokens(s, d)[j], d));
    }
}

/// Occurrences add up over a concatenation.
pub proof fn lemma_occurrences_concat(a: Seq<Seq<u8>>, b: Seq<Seq<u8>>, w: Seq<u8>)
    ensures
        occurrences(a + b, w) == occurrences(a, w) + occurrences(b, w),
    decreases a.len(),
{
    if a.len() > 0 {
        assert((a + b).drop_first() == a.drop_first() + b);
        lemma_occurrences_concat(a.drop_first(), b, w);
    } else {
        assert(a + b == b);
    }
}

/// A word occurs at most as many times as there are words.
pub proof fn lemma_occurrences_le_len(ts: Seq<Seq<u8>>, w: Seq<u8>)
    ensures
        occurrences(ts, w) <= ts.len(),
    decreases ts.len(),
{
    if ts.len() > 0 {
        lemma_occurrences_le_len(ts.drop_first(), w);
    }
}

/// Adds one occurrence of `word` to the well-formed table `t`, keeping its keys sorted.
fn insert_word(t: &mut Table, word: Vec<u8>)
    requires
        wf_table(table_view(old(t)@)),
        tcount(table_view(old(t)@), word@) < usize::MAX,
    ensures
        wf_table(table_view(final(t)@)),
        forall|w: Seq<u8>| #[trigger] tcount(table_view(final(t)@), w) == tcount(
            table_view(old(t)@),
            w,
        ) + (if w == word@ { 1nat } else { 0nat }),
{
    let ghost v = table_view(t@);
    let mut lo: usize = 0;
    let mut hi: usize = t.len();
    while lo < hi
        invariant
            v == table_view(t@),
            wf_table(v),
            0 <= lo <= hi <= v.len(),
            forall|k: int| 0 <= k < lo ==> lex_lt(#[trigger] v[k].0, word@),
            forall|k: int| hi <= k < v.len() ==> !lex_lt(#[trigger] v[k].0, word@),
        decreases hi - lo,
    {
        let mid = lo + (hi - lo) / 2;
        let c = compare_words(t[mid].0.as_slice(), word.as_slice());
        assert(v[mid as int].0 == t@[mid as int].0@);
        match c {
            Ordering::Less => {
                assert forall|k: int| 0 <= k < mid + 1 implies lex_lt(#[trigger] v[k].0, word@) by {
                    if lo <= k < mid {
                        lemma_lex_transitive(v[k].0, v[mid as int].0, word@);
                    }
                }
                lo = mid + 1;
            },
            _ => {
                assert forall|k: int| mid <= k < v.len() implies !lex_lt(#[trigger] v[k].0, word@) by {
                    if mid < k < hi {
                        let km = v[mid as int].0;
                        if km == word@ {
                            lemma_lex_total(v[k].0, word@);
                            lemma_lex_irreflexive(word@);
                        } else {
                            lemma_lex_total(km, word@);
                            lemma_lex_transitive(word@, km, v[k].0);
                            lemma_lex_total(v[k].0, word@);
                            lemma_lex_irreflexive(word@);
                        }
                    }
                }
                hi = mid;
            },
        }
    }
    let p = lo;
    let found = p < t.len() && matches!(
        compare_words(t[p].0.as_slice(), word.as_slice()),
        Ordering::Equal
    );
    let ghost a = v.take(p as int);
    if found {
        let ghost b = v.skip(p + 1);
        proof {
            lemma_tcount_at(v, p as int);
            assert(v == a + (seq![v[p as int]] + b));
        }
        let n = t[p].1 + 1;
        t.set(p, (word, n));
        proof {
            let nv = table_view(t@);
            assert(nv == a + (seq![nv[p as int]] + b));
            assert(nv[p as int] == (v[p as int].0, v[p as int].1 + 1));
            assert forall|w: Seq<u8>| #[trigger] tcount(nv, w) == tcount(v, w) + (if w == word@ {
                1nat
            } else {
                0nat
            }) by {
                lemma_tcount_concat(a, seq![v[p as int]] + b, w);
                lemma_tcount_concat(a, seq![nv[p as int]] + b, w);
                assert((seq![v[p as int]] + b).drop_first() == b);
                assert((seq![nv[p as int]] + b).drop_first() == b);
            }
            assert forall|i: int, j: int| 0 <= i < j < nv.len() implies lex_lt(
                #[trigger] nv[i].0,
                #[trigger] nv[j].0,
            ) by {
                assert(lex_lt(v[i].0, v[j].0));
            }
            assert forall|i: int| 0 <= i < nv.len() implies #[trigger] nv[i].1 > 0 by {
                assert(v[i].1 > 0);
            }
        }
    } else {
        let ghost b = v.skip(p as int);
        let ghost e = (word@, 1nat);
        proof {
            assert forall|k: int| 0 <= k < b.len() implies lex_lt(word@, #[trigger] b[k].0) by {
                let kk = v[p + k].0;
                assert(b[k].0 == kk);
                assert(!lex_lt(kk, word@));
                if kk == word@ {
                    if k > 0 {
                        assert(lex_lt(v[p as int].0, kk));
                        assert(!lex_lt(v[p as int].0, word@));
                    }
                } else {
                    lemma_lex_total(kk, word@);
                }
            }
        }
        t.insert(p, (word, 1));
        proof {
            let nv = table_view(t@);
            assert(nv == a + (seq![e] + b));
            assert(v == a + b);
            assert forall|w: Seq<u8>| #[trigger] tcount(nv, w) == tcount(v, w) + (if w == word@ {
                1nat
            } else {
                0nat
            }) by {
                lemma_tcount_concat(a, seq![e] + b, w);
                lemma_tcount_concat(a, b, w);
                assert((seq![e] + b).drop_first() == b);
            }
            assert forall|i: int, j: int| 0 <= i < j < nv.len() implies lex_lt(
                #[trigger] nv[i].0,
                #[trigger] nv[j].0,
            ) by {
                if j < p {
                    assert(lex_lt(v[i].0, v[j].0));
                } else if j == p {
                    assert(lex_lt(v[i].0, word@));
                } else if i < p {
                    assert(lex_lt(v[i].0, word@));
                    assert(lex_lt(word@, b[j - p - 1].0));
                    lemma_lex_transitive(v[i].0, word@, nv[j].0);
                } else if i == p {
                    assert(lex_lt(word@, b[j - p - 1].0));
                } else {
                    assert(lex_lt(v[i - 1].0, v[j - 1].0));
                }
            }
            assert forall|i: int| 0 <= i < nv.len() implies #[trigger] nv[i].1 > 0 by {
                if i < p {
                    assert(v[i].1 > 0);
                } else if i > p {
                    assert(v[i - 1].1 > 0);
                }
            }
        }
    }
}

/// Counts the words of `chunk`: the result is sorted by word, holds each word once, and gives
/// each the number of times it occurs.
pub fn count_words(chunk: &[u8], delims: &DelimSet) -> (r: Table)
    ensures
        is_table_of(table_view(r@), tokens(chunk@, delims@)),
{
    let ghost d = delims@;
    let mut t: Table = Vec::new();
    let mut i: usize = 0;
    assert(chunk@.take(0) == Seq::<u8>::empty());
    while i < chunk.len()
        invariant
            i <= chunk@.len(),
            d == delims@,
            i == 0 || i == chunk@.len() || d.contains(chunk@[i - 1]),
            is_table_of(table_view(t@), tokens(chunk@.take(i as int), d)),
        decreases chunk@.len() - i,
    {
        if delims.contains(chunk[i]) {
            proof {
                let x = chunk@.take(i as int);
                let y = seq![chunk@[i as int]];
                lemma_tokens_concat(x, y, d);
                assert(chunk@.take(i + 1) == x + y);
                assert(y.drop_first().len() == 0);
                assert(tokens(y.drop_first(), d) == Seq::<Seq<u8>>::empty());
                assert(tokens(x, d) + tokens(y, d) == tokens(x, d));
            }
            i = i + 1;
        } else {
            let mut j: usize = i + 1;
            while j < chunk.len() && !delims.contains(chunk[j])
                invariant
                    i < j <= chunk@.len(),
                    d == delims@,
                    forall|k: int| i <= k < j ==> !d.contains(#[trigger] chunk@[k]),
                decreases chunk@.len() - j,
            {
                j = j + 1;
            }
            let word = slice_to_vec(slice_subrange(chunk, i, j));
            proof {
                let x = chunk@.take(i as int);
                let y = word@;
                assert forall|k: int| 0 <= k < y.len() implies !d.contains(#[trigger] y[k]) by {
                    assert(y[k] == chunk@[i + k]);
                }
                lemma_tokens_word(y, d);
                lemma_tokens_concat(x, y, d);
                assert(chunk@.take(j as int) == x + y);
                lemma_tokens_len(x, d);
                lemma_occurrences_le_len(tokens(x, d), y);
                assert forall|w: Seq<u8>| #[trigger] occurrences(tokens(chunk@.take(j as int), d), w)
                    == occurrences(tokens(x, d), w) + (if w == y { 1nat } else { 0nat }) by {
                    lemma_occurrences_concat(tokens(x, d), seq![y], w);
                    assert(seq![y].drop_first().len() == 0);
                    assert(occurrences(seq![y].drop_first(), w) == 0);
                    assert(occurrences(seq![y], w) == (if w == y { 1nat } else { 0nat }));
                }
            }
            insert_word(&mut t, word);
            if j < chunk.len() {
                proof {
                    let x = chunk@.take(j as int);
                    let y = seq![chunk@[j as int]];
                    lemma_tokens_concat(x, y, d);
                    assert(chunk@.take(j + 1) == x + y);
                    assert(y.drop_first().len() == 0);
                    assert(tokens(y.drop_first(), d) == Seq::<Seq<u8>>::empty());
                    assert(tokens(x, d) + tokens(y, d) == tokens(x, d));
                }
                i = j + 1;
            } else {
                i = j;
            }
        }
    }
    assert(chunk@.take(i as int) == chunk@);
    t
}

} // verus!
