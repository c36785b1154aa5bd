use vstd::prelude::*;
use vstd::slice::slice_to_vec;
use std::cmp::Ordering;
use crate::lex::{compare_words, lex_lt, lemma_lex_irreflexive, lemma_lex_total, lemma_lex_transitive};

verus! {

/// A frequency table as handed out by the library: (word, count) pairs.
pub type Table = Vec<(Vec<u8>, usize)>;

/// The mathematical model of a frequency table: words as byte sequences, counts as `nat`.
pub open spec fn table_view(t: Seq<(Vec<u8>, usize)>) -> Seq<(Seq<u8>, nat)> {
    t.map_values(|e: (Vec<u8>, usize)| (e.0@, e.1 as nat))
}

/// The total count that table `t` gives to word `w` (summed over all of its entries for `w`).
pub open spec fn tcount(t: Seq<(Seq<u8>, nat)>, w: Seq<u8>) -> nat
    decreases t.len(),
{
    if t.len() == 0 {
        0
    } else {
        (if t[0].0 == w { t[0].1 } else { 0 }) + tcount(t.drop_first(), w)
    }
}

/// Keys strictly increase in lexicographic byte order (so no key repeats).
pub open spec fn keys_sorted(t: Seq<(Seq<u8>, nat)>) -> bool {
    forall|i: int, j: int| 0 <= i < j < t.len() ==> lex_lt(#[trigger] t[i].0, #[trigger] t[j].0)
}

/// A well-formed frequency table: keys strictly sorted and every count at least one.
pub open spec fn wf_table(t: Seq<(Seq<u8>, nat)>) -> bool {
    &&& keys_sorted(t)
    &&& forall|i: int| 0 <= i < t.len() ==> #[trigger] t[i].1 > 0
}

/// The ordered merge of two tables: the smaller head goes first, equal heads are summed.
pub open spec fn merged(a: Seq<(Seq<u8>, nat)>, b: Seq<(Seq<u8>, nat)>) -> Seq<(Seq<u8>, nat)>
    decreases a.len() + b.len(),
{
    if a.len() == 0 {
        b
    } else if b.len() == 0 {
        a
    } else if lex_lt(a[0].0, b[0].0) {
        seq![a[0]] + merged(a.drop_first(), b)
    } else if lex_lt(b[0].0, a[0].0) {
        seq![b[0]] + merged(a, b.drop_first())
    } else {
        seq![(a[0].0, a[0].1 + b[0].1)] + merged(a.drop_first(), b.drop_first())
    }
}

/// Merging two tables whose summed counts fit in a `usize` never overflows.
pub open spec fn sums_fit(a: Seq<(Seq<u8>, nat)>, b: Seq<(Seq<u8>, nat)>) -> bool {
    forall|w: Seq<u8>| #[trigger] tcount(a, w) + tcount(b, w) <= usize::MAX
}

/// Counts add up over a concatenation.
pub proof fn lemma_tcount_concat(a: Seq<(Seq<u8>, nat)>, b: Seq<(Seq<u8>, nat)>, w: Seq<u8>)
    ensures
        tcount(a + b, w) == tcount(a, w) + tcount(b, w),
    decreases a.len(),
{
    if a.len() > 0 {
        assert((a + b).drop_first() == a.drop_first() + b);
        lemma_tcount_concat(a.drop_first(), b, w);
    } else {
        assert(a + b == b);
    }
}

/// A table without an entry for `w` gives it count zero.
pub proof fn lemma_tcount_absent(t: Seq<(Seq<u8>, nat)>, w: Seq<u8>)
    requires
        forall|i: int| 0 <= i < t.len() ==> #[trigger] t[i].0 != w,
    ensures
        tcount(t, w) == 0,
    decreases t.len(),
{
    if t.len() > 0 {
        assert(t[0].0 != w);
        assert forall|i: int| 0 <= i < t.len() - 1 implies #[trigger] t.drop_first()[i].0 != w by {
            assert(t[i + 1].0 != w);
        }
        lemma_tcount_absent(t.drop_first(), w);
    }
}

/// In a well-formed table, the count of a key is the value stored with it.
pub proof fn lemma_tcount_at(t: Seq<(Seq<u8>, nat)>, i: int)
    requires
        wf_table(t),
        0 <= i < t.len(),
    ensures
        tcount(t, t[i].0) == t[i].1,
{
    let k = t[i].0;
    assert forall|j: int| 0 <= j < t.subrange(0, i).len() implies #[trigger] t.subrange(0, i)[j].0 != k by {
        assert(lex_lt(t[j].0, t[i].0));
        lemma_lex_irreflexive(k);
    }
    let rest = t.subrange(i + 1, t.len() as int);
    assert forall|j: int| 0 <= j < rest.len() implies #[trigger] rest[j].0 != k by {
        assert(lex_lt(t[i].0, t[i + 1 + j].0));
        lemma_lex_irreflexive(k);
    }
    lemma_tcount_absent(t.subrange(0, i), k);
    lemma_tcount_absent(rest, k);
    assert(t == t.subrange(0, i) + (seq![t[i]] + rest));
    lemma_tcount_concat(t.subrange(0, i), seq![t[i]] + rest, k);
    assert((seq![t[i]] + rest).drop_first() == rest);
}

/// The tail of a well-formed table is well formed.
proof fn lemma_wf_drop_first(t: Seq<(Seq<u8>, nat)>)
    requires
        wf_table(t),
        t.len() > 0,
    ensures
        wf_table(t.drop_first()),
        forall|i: int| 0 <= i < t.drop_first().len() ==> lex_lt(t[0].0, #[trigger] t.drop_first()[i].0),
{
    assert forall|i: int| 0 <= i < t.drop_first().len() implies lex_lt(t[0].0, #[trigger] t.drop_first()[i].0) by {
        assert(lex_lt(t[0].0, t[i + 1].0));
    }
    assert forall|i: int, j: int| 0 <= i < j < t.drop_first().len() implies lex_lt(
        #[trigger] t.drop_first()[i].0,
        #[trigger] t.drop_first()[j].0,
    ) by {
        assert(lex_lt(t[i + 1].0, t[j + 1].0));
    }
    assert forall|i: int| 0 <= i < t.drop_first().len() implies #[trigger] t.drop_first()[i].1 > 0 by {
        assert(t[i + 1].1 > 0);
    }
}

/// The count of every word in a merge is the sum of its counts in the two inputs.
pub proof fn lemma_merged_counts(a: Seq<(Seq<u8>, nat)>, b: Seq<(Seq<u8>, nat)>, w: Seq<u8>)
    ensures
        tcount(merged(a, b), w) == tcount(a, w) + tcount(b, w),
    decreases a.len() + b.len(),
{
    if a.len() == 0 || b.len() == 0 {
    } else if lex_lt(a[0].0, b[0].0) {
        let rest = merged(a.drop_first(), b);
        lemma_merged_counts(a.drop_first(), b, w);
        assert((seq![a[0]] + rest).drop_first() == rest);
    } else if lex_lt(b[0].0, a[0].0) {
        let rest = merged(a, b.drop_first());
        lemma_merged_counts(a, b.drop_first(), w);
        assert((seq![b[0]] + rest).drop_first() == rest);
    } else {
        if a[0].0 != b[0].0 {
            lemma_lex_total(a[0].0, b[0].0);
        }
        let rest = merged(a.drop_first(), b.drop_first());
        lemma_merged_counts(a.drop_first(), b.drop_first(), w);
        assert((seq![(a[0].0, a[0].1 + b[0].1)] + rest).drop_first() == rest);
    }
}

/// Every key of a merge comes after `k` when every key of both inputs does.
proof fn lemma_merged_above(a: Seq<(Seq<u8>, nat)>, b: Seq<(Seq<u8>, nat)>, k: Seq<u8>)
    requires
        forall|i: int| 0 <= i < a.len() ==> lex_lt(k, #[trigger] a[i].0),
        forall|i: int| 0 <= i < b.len() ==> lex_lt(k, #[trigger] b[i].0),
    ensures
        forall|i: int| 0 <= i < merged(a, b).len() ==> lex_lt(k, #[trigger] merged(a, b)[i].0),
    decreases a.len() + b.len(),
{
    if a.len() == 0 || b.len() == 0 {
    } else {
        assert(lex_lt(k, a[0].0));
        assert(lex_lt(k, b[0].0));
        assert forall|i: int| 0 <= i < a.drop_first().len() implies lex_lt(k, #[trigger] a.drop_first()[i].0) by {
            assert(lex_lt(k, a[i + 1].0));
        }
        assert forall|i: int| 0 <= i < b.drop_first().len() implies lex_lt(k, #[trigger] b.drop_first()[i].0) by {
            assert(lex_lt(k, b[i + 1].0));
        }
        let m = merged(a, b);
        if lex_lt(a[0].0, b[0].0) {
            lemma_merged_above(a.drop_first(), b, k);
            let rest = merged(a.drop_first(), b);
            assert forall|i: int| 0 <= i < m.len() implies lex_lt(k, #[trigger] m[i].0) by {
                if i > 0 {
                    assert(m[i] == rest[i - 1]);
                }
            }
        } else if lex_lt(b[0].0, a[0].0) {
            lemma_merged_above(a, b.drop_first(), k);
            let rest = merged(a, b.drop_first());
            assert forall|i: int| 0 <= i < m.len() implies lex_lt(k, #[trigger] m[i].0) by {
                if i > 0 {
                    assert(m[i] == rest[i - 1]);
                }
            }
        } else {
            lemma_merged_above(a.drop_first(), b.drop_first(), k);
            let rest = merged(a.drop_first(), b.drop_first());
            assert forall|i: int| 0 <= i < m.len() implies lex_lt(k, #[trigger] m[i].0) by {
                if i > 0 {
                    assert(m[i] == rest[i - 1]);
                }
            }
        }
    }
}

/// Prepending an entry whose key precedes all keys of a well-formed table keeps it well formed.
proof fn lemma_wf_prepend(e: (Seq<u8>, nat), t: Seq<(Seq<u8>, nat)>)
    requires
        wf_table(t),
        e.1 > 0,
        forall|i: int| 0 <= i < t.len() ==> lex_lt(e.0, #[trigger] t[i].0),
    ensures
        wf_table(seq![e] + t),
{
    let s = seq![e] + t;
    assert forall|i: int, j: int| 0 <= i < j < s.len() implies lex_lt(#[trigger] s[i].0, #[trigger] s[j].0) by {
        if i == 0 {
            assert(s[j] == t[j - 1]);
        } else {
            assert(s[i] == t[i - 1]);
            assert(s[j] == t[j - 1]);
        }
    }
    assert forall|i: int| 0 <= i < s.len() implies #[trigger] s[i].1 > 0 by {
        if i > 0 {
            assert(s[i] == t[i - 1]);
        }
    }
}

/// The merge of two well-formed tables is well formed.
pub proof fn lemma_merged_wf(a: Seq<(Seq<u8>, nat)>, b: Seq<(Seq<u8>, nat)>)
    requires
        wf_table(a),
        wf_table(b),
    ensures
        wf_table(merged(a, b)),
    decreases a.len() + b.len(),
{
    if a.len() == 0 || b.len() == 0 {
    } else {
        lemma_wf_drop_first(a);
        lemma_wf_drop_first(b);
        let ka = a[0].0;
        let kb = b[0].0;
        if lex_lt(ka, kb) {
            assert forall|i: int| 0 <= i < b.len() implies lex_lt(ka, #[trigger] b[i].0) by {
                if i > 0 {
                    lemma_lex_transitive(ka, kb, b[i].0);
                }
            }
            lemma_merged_wf(a.drop_first(), b);
            lemma_merged_above(a.drop_first(), b, ka);
            lemma_wf_prepend(a[0], merged(a.drop_first(), b));
        } else if lex_lt(kb, ka) {
            assert forall|i: int| 0 <= i < a.len() implies lex_lt(kb, #[trigger] a[i].0) by {
                if i > 0 {
                    lemma_lex_transitive(kb, ka, a[i].0);
                }
            }
            lemma_merged_wf(a, b.drop_first());
            lemma_merged_above(a, b.drop_first(), kb);
            lemma_wf_prepend(b[0], merged(a, b.drop_first()));
        } else {
            if ka != kb {
                lemma_lex_total(ka, kb);
            }
            lemma_merged_wf(a.drop_first(), b.drop_first());
            lemma_merged_above(a.drop_first(), b.drop_first(), ka);
            lemma_wf_prepend((ka, a[0].1 + b[0].1), merged(a.drop_first(), b.drop_first()));
        }
    }
}

/// A well-formed table is determined by its counts: two that agree on every word are equal.
pub proof fn lemma_table_unique(t1: Seq<(Seq<u8>, nat)>, t2: Seq<(Seq<u8>, nat)>)
    requires
        wf_table(t1),
        wf_table(t2),
        forall|w: Seq<u8>| #[trigger] tcount(t1, w) == tcount(t2, w),
    ensures
        t1 == t2,
    decreases t1.len() + t2.len(),
{
    if t1.len() == 0 && t2.len() == 0 {
        assert(t1 == t2);
    } else if t1.len() == 0 {
        lemma_tcount_at(t2, 0);
        assert(tcount(t1, t2[0].0) == 0);
    } else if t2.len() == 0 {
        lemma_tcount_at(t1, 0);
        assert(tcount(t2, t1[0].0) == 0);
    } else {
        let k1 = t1[0].0;
        let k2 = t2[0].0;
        lemma_tcount_at(t1, 0);
        lemma_tcount_at(t2, 0);
        if k1 != k2 {
            lemma_lex_total(k1, k2);
            if lex_lt(k1, k2) {
                assert forall|j: int| 0 <= j < t2.len() implies #[trigger] t2[j].0 != k1 by {
                    if j > 0 {
                        lemma_lex_transitive(k1, k2, t2[j].0);
                    }
                    lemma_lex_irreflexive(k1);
                }
                lemma_tcount_absent(t2, k1);
                assert(tcount(t1, k1) == tcount(t2, k1));
            } else {
                assert forall|j: int| 0 <= j < t1.len() implies #[trigger] t1[j].0 != k2 by {
                    if j > 0 {
                        lemma_lex_transitive(k2, k1, t1[j].0);
                    }
                    lemma_lex_irreflexive(k2);
                }
                lemma_tcount_absent(t1, k2);
                assert(tcount(t1, k2) == tcount(t2, k2));
            }
        } else {
            assert(tcount(t1, k1) == tcount(t2, k1));
            lemma_wf_drop_first(t1);
            lemma_wf_drop_first(t2);
            assert forall|w: Seq<u8>| #[trigger] tcount(t1.drop_first(), w) == tcount(t2.drop_first(), w) by {
                assert(tcount(t1, w) == tcount(t2, w));
            }
            lemma_table_unique(t1.drop_first(), t2.drop_first());
            assert(t1 == seq![t1[0]] + t1.drop_first());
            assert(t2 == seq![t2[0]] + t2.drop_first());
        }
    }
}

/// Merging is commutative on well-formed tables.
pub proof fn lemma_merge_commutative(a: Seq<(Seq<u8>, nat)>, b: Seq<(Seq<u8>, nat)>)
    requires
        wf_table(a),
        wf_table(b),
    ensures
        merged(a, b) == merged(b, a),
{
    lemma_merged_wf(a, b);
    lemma_merged_wf(b, a);
    assert forall|w: Seq<u8>| #[trigger] tcount(merged(a, b), w) == tcount(merged(b, a), w) by {
        lemma_merged_counts(a, b, w);
        lemma_merged_counts(b, a, w);
    }
    lemma_table_unique(merged(a, b), merged(b, a));
}

/// Merging is associative on well-formed tables, so any fold order gives the same table.
pub proof fn lemma_merge_associative(
    a: Seq<(Seq<u8>, nat)>,
    b: Seq<(Seq<u8>, nat)>,
    c: Seq<(Seq<u8>, nat)>,
)
    requires
        wf_table(a),
        wf_table(b),
        wf_table(c),
    ensures
        merged(merged(a, b), c) == merged(a, merged(b, c)),
{
    lemma_merged_wf(a, b);
    lemma_merged_wf(b, c);
    lemma_merged_wf(merged(a, b), c);
    lemma_merged_wf(a, merged(b, c));
    assert forall|w: Seq<u8>| #[trigger] tcount(merged(merged(a, b), c), w) == tcount(
        merged(a, merged(b, c)),
        w,
    ) by {
        lemma_merged_counts(a, b, w);
        lemma_merged_counts(b, c, w);
        lemma_merged_counts(merged(a, b), c, w);
        lemma_merged_counts(a, merged(b, c), w);
    }
    lemma_table_unique(merged(merged(a, b), c), merged(a, merged(b, c)));
}

/// Walks two frequency tables in step, handing out their ordered merge one entry at a time.
pub struct MergeSortIter {
    i1: Table,
    i2: Table,
    p1: usize,
    p2: usize,
}

impl MergeSortIter {
    /// What is left of the first table.
    pub closed spec fn rest1(&self) -> Seq<(Seq<u8>, nat)> {
        table_view(self.i1@).skip(self.p1 as int)
    }

    /// What is left of the second table.
    pub closed spec fn rest2(&self) -> Seq<(Seq<u8>, nat)> {
        table_view(self.i2@).skip(self.p2 as int)
    }

    /// What the iterator still has to hand out.
    pub closed spec fn remaining(&self) -> Seq<(Seq<u8>, nat)> {
        merged(self.rest1(), self.rest2())
    }

    #[verifier::type_invariant]
    spec fn inv(&self) -> bool {
        &&& self.p1 <= self.i1@.len()
        &&& self.p2 <= self.i2@.len()
        &&& sums_fit(self.rest1(), self.rest2())
    }

    /// Starts the merge of `i1` and `i2`.
    pub fn new(i1: Table, i2: Table) -> (r: MergeSortIter)
        requires
            sums_fit(table_view(i1@), table_view(i2@)),
        ensures
            r.remaining() == merged(table_view(i1@), table_view(i2@)),
    {
        assert(table_view(i1@).skip(0) == table_view(i1@));
        assert(table_view(i2@).skip(0) == table_view(i2@));
        MergeSortIter { i1, i2, p1: 0, p2: 0 }
    }

    /// Hands out the next entry of the merge, or `None` once both tables are used up.
    pub fn next(&mut self) -> (r: Option<(Vec<u8>, usize)>)
        ensures
            match r {
                None => old(self).remaining().len() == 0 && final(self).remaining().len() == 0,
                Some(e) => {
                    &&& old(self).remaining().len() > 0
                    &&& (e.0@, e.1 as nat) == old(self).remaining()[0]
                    &&& final(self).remaining() == old(self).remaining().drop_first()
                },
            },
    {
        proof {
            use_type_invariant(&*self);
        }
        let ghost r1 = self.rest1();
        let ghost r2 = self.rest2();
        let has1 = self.p1 < self.i1.len();
        let has2 = self.p2 < self.i2.len();
        if !has1 && !has2 {
            return None;
        }
        let ord = if !has2 {
            Ordering::Less
        } else if !has1 {
            Ordering::Greater
        } else {
            compare_words(self.i1[self.p1].0.as_slice(), self.i2[self.p2].0.as_slice())
        };
        proof {
            if has1 {
                assert(r1[0] == table_view(self.i1@)[self.p1 as int]);
                assert(r1.drop_first() == table_view(self.i1@).skip(self.p1 + 1));
            }
            if has2 {
                assert(r2[0] == table_view(self.i2@)[self.p2 as int]);
                assert(r2.drop_first() == table_view(self.i2@).skip(self.p2 + 1));
            }
            // Dropping heads only lowers the counts, so the sums still fit.
            if has1 {
                assert forall|w: Seq<u8>| #[trigger] tcount(r1.drop_first(), w) + tcount(r2, w)
                    <= usize::MAX by {
                    assert(tcount(r1, w) + tcount(r2, w) <= usize::MAX);
                }
            }
            if has2 {
                assert forall|w: Seq<u8>| tcount(r1, w) + #[trigger] tcount(r2.drop_first(), w)
                    <= usize::MAX by {
                    assert(tcount(r1, w) + tcount(r2, w) <= usize::MAX);
                }
            }
            if has1 && has2 {
                assert forall|w: Seq<u8>| #[trigger] tcount(r1.drop_first(), w) + #[trigger] tcount(
                    r2.drop_first(),
                    w,
                ) <= usize::MAX by {
                    assert(tcount(r1, w) + tcount(r2, w) <= usize::MAX);
                }
            }
        }
        match ord {
            Ordering::Less => {
                let k = slice_to_vec(self.i1[self.p1].0.as_slice());
                let v = self.i1[self.p1].1;
                self.p1 = self.p1 + 1;
                proof {
                    assert(merged(r1, r2).drop_first() == merged(r1.drop_first(), r2));
                }
                Some((k, v))
            },
            Ordering::Greater => {
                let k = slice_to_vec(self.i2[self.p2].0.as_slice());
                let v = self.i2[self.p2].1;
                self.p2 = self.p2 + 1;
                proof {
                    if has1 {
                        lemma_lex_total(r1[0].0, r2[0].0);
                    }
                    assert(merged(r1, r2).drop_first() == merged(r1, r2.drop_first()));
                }
                Some((k, v))
            },
            Ordering::Equal => {
                let k = slice_to_vec(self.i1[self.p1].0.as_slice());
                proof {
                    lemma_lex_irreflexive(r1[0].0);
                    assert(tcount(r1, r1[0].0) + tcount(r2, r1[0].0) <= usize::MAX);
                }
                let v = self.i1[self.p1].1 + self.i2[self.p2].1;
                self.p1 = self.p1 + 1;
                self.p2 = self.p2 + 1;
                proof {
                    assert(merged(r1, r2).drop_first() == merged(r1.drop_first(), r2.drop_first()));
                }
                Some((k, v))
            },
        }
    }
}

/// Merges two frequency tables: entries come out in key order and equal keys have their counts
/// summed.
pub fn merge(t1: Table, t2: Table) -> (r: Table)
    requires
        sums_fit(table_view(t1@), table_view(t2@)),
    ensures
        table_view(r@) == merged(table_view(t1@), table_view(t2@)),
{
    let ghost whole = merged(table_view(t1@), table_view(t2@));
    let mut it = MergeSortIter::new(t1, t2);
    let mut out: Table = Vec::new();
    assert(table_view(out@) + it.remaining() == it.remaining());
    loop
        invariant
            table_view(out@) + it.remaining() == whole,
        ensures
            table_view(out@) == whole,
        decreases it.remaining().len(),
    {
        let ghost before = it.remaining();
        match it.next() {
            None => {
                assert(table_view(out@) == whole);
                break;
            },
            Some(e) => {
                let ghost prev = out@;
                out.push(e);
                assert(table_view(out@) == table_view(prev).push(before[0]));
                assert(before == seq![before[0]] + before.drop_first());
                assert(table_view(out@) + it.remaining() == table_view(prev) + before);
            },
        }
    }
    out
}

} // verus!
