use vstd::prelude::*;
use vstd::slice::slice_subrange;
use std::ops::Range;
use crate::delims::DelimSet;
use crate::table::{Table, table_view, tcount, sums_fit, merged, merge, lemma_merged_wf, lemma_merged_counts, lemma_table_unique};
use crate::words::{
    tokens, occurrences, is_table_of, is_word, count_words, lemma_table_keys_are_words, lemma_tokens_concat, lemma_tokens_len,
    lemma_occurrences_concat, lemma_occurrences_le_len,
};

verus! {

/// The first index at or after `i` whose byte is in `d`, or the length of `s` if there is none.
pub open spec fn first_delim_from(s: Seq<u8>, d: Set<u8>, i: int) -> int
    decreases s.len() - i,
{
    if i >= s.len() {
        s.len() as int
    } else if d.contains(s[i]) {
        i
    } else {
        first_delim_from(s, d, i + 1)
    }
}

/// The distance from one partition's start to the offset where its end is looked for: the
/// approximate chunk size, or one byte when that size is zero, so that no partition is empty.
pub open spec fn chunk_step(approx_chunk_size: int) -> int {
    if approx_chunk_size <= 0 {
        1
    } else {
        approx_chunk_size
    }
}

/// Where the partition that starts at `pos` ends: at the first delimiter at or after
/// `pos + step`, or at the end of the buffer.
pub open spec fn chunk_end(s: Seq<u8>, d: Set<u8>, step: int, pos: int) -> int {
    first_delim_from(s, d, if pos + step < s.len() { pos + step } else { s.len() as int })
}

/// The partitions of `s` from `pos` on, as half-open `(start, end)` ranges.
pub open spec fn ranges_from(s: Seq<u8>, d: Set<u8>, step: int, pos: int) -> Seq<(int, int)>
    decreases s.len() - pos,
{
    if pos >= s.len() {
        seq![]
    } else {
        let e = chunk_end(s, d, step, pos);
        // The guard always holds for `step >= 1` (see `lemma_chunk_end`); it keeps the
        // recursion visibly terminating.
        if pos < e <= s.len() {
            seq![(pos, e)] + ranges_from(s, d, step, e)
        } else {
            seq![]
        }
    }
}

/// The partitions of `s` into about `n` pieces, split at delimiters only.
pub open spec fn partition_of(s: Seq<u8>, d: Set<u8>, n: int) -> Seq<(int, int)> {
    ranges_from(s, d, chunk_step(s.len() as int / n), 0)
}

/// The words of each range of `rs` in `s`, one range after the other.
pub open spec fn tokens_of_ranges(s: Seq<u8>, d: Set<u8>, rs: Seq<(int, int)>) -> Seq<Seq<u8>>
    decreases rs.len(),
{
    if rs.len() == 0 {
        seq![]
    } else {
        tokens(s.subrange(rs[0].0, rs[0].1), d) + tokens_of_ranges(s, d, rs.drop_first())
    }
}

/// The ranges of a `Vec<Range<usize>>` as pairs of integers.
pub open spec fn range_pairs(rs: Seq<Range<usize>>) -> Seq<(int, int)> {
    rs.map_values(|g: Range<usize>| (g.start as int, g.end as int))
}

proof fn lemma_first_delim_from(s: Seq<u8>, d: Set<u8>, i: int)
    requires
        0 <= i <= s.len(),
    ensures
        i <= first_delim_from(s, d, i) <= s.len(),
        first_delim_from(s, d, i) == s.len() || d.contains(s[first_delim_from(s, d, i)]),
        forall|k: int| i <= k < first_delim_from(s, d, i) ==> !d.contains(#[trigger] s[k]),
    decreases s.len() - i,
{
    if i < s.len() && !d.contains(s[i]) {
        lemma_first_delim_from(s, d, i + 1);
    }
}

/// A partition starting before the end of the buffer is non-empty and ends at a delimiter or at
/// the end of the buffer.
proof fn lemma_chunk_end(s: Seq<u8>, d: Set<u8>, step: int, pos: int)
    requires
        0 <= pos < s.len(),
        step >= 1,
    ensures
        pos < chunk_end(s, d, step, pos) <= s.len(),
        chunk_end(s, d, step, pos) == s.len() || d.contains(s[chunk_end(s, d, step, pos)]),
{
    lemma_first_delim_from(s, d, if pos + step < s.len() { pos + step } else { s.len() as int });
}

/// Shape of the partitions from `pos`: contiguous, non-empty, from `pos` to the end, and every
/// inner boundary on a delimiter.
proof fn lemma_ranges_from_shape(s: Seq<u8>, d: Set<u8>, step: int, pos: int)
    requires
        0 <= pos <= s.len(),
        step >= 1,
    ensures
        ({
            let rs = ranges_from(s, d, step, pos);
            &&& (pos < s.len() ==> rs.len() > 0 && rs[0].0 == pos && rs.last().1 == s.len())
            &&& (pos == s.len() ==> rs.len() == 0)
            &&& forall|i: int| 0 <= i < rs.len() ==> pos <= (#[trigger] rs[i]).0 < rs[i].1 <= s.len()
            &&& forall|i: int| 0 <= i < rs.len() - 1 ==> (#[trigger] rs[i]).1 == rs[i + 1].0
            &&& forall|i: int| 0 <= i < rs.len() ==> ((#[trigger] rs[i]).1 == s.len() || d.contains(s[rs[i].1]))
        }),
    decreases s.len() - pos,
{
    if pos < s.len() {
        lemma_chunk_end(s, d, step, pos);
        let e = chunk_end(s, d, step, pos);
        lemma_ranges_from_shape(s, d, step, e);
        let rest = ranges_from(s, d, step, e);
        let rs = ranges_from(s, d, step, pos);
        assert(rs == seq![(pos, e)] + rest);
        assert forall|i: int| 0 <= i < rs.len() - 1 implies (#[trigger] rs[i]).1 == rs[i + 1].0 by {
            if i > 0 {
                assert(rs[i] == rest[i - 1]);
            }
        }
        assert forall|i: int| 0 <= i < rs.len() implies pos <= (#[trigger] rs[i]).0 < rs[i].1 <= s.len() by {
            if i > 0 {
                assert(rs[i] == rest[i - 1]);
            }
        }
        assert forall|i: int| 0 <= i < rs.len() implies ((#[trigger] rs[i]).1 == s.len() || d.contains(s[rs[i].1])) by {
            if i > 0 {
                assert(rs[i] == rest[i - 1]);
            }
        }
    }
}

proof fn lemma_ranges_from_tokens(s: Seq<u8>, d: Set<u8>, step: int, pos: int)
    requires
        0 <= pos <= s.len(),
        step >= 1,
    ensures
        tokens_of_ranges(s, d, ranges_from(s, d, step, pos)) == tokens(s.subrange(pos, s.len() as int), d),
    decreases s.len() - pos,
{
    if pos < s.len() {
        lemma_chunk_end(s, d, step, pos);
        let e = chunk_end(s, d, step, pos);
        lemma_ranges_from_tokens(s, d, step, e);
        let rs = ranges_from(s, d, step, pos);
        assert(rs.drop_first() == ranges_from(s, d, step, e));
        let x = s.subrange(pos, e);
        let y = s.subrange(e, s.len() as int);
        assert(s.subrange(pos, s.len() as int) == x + y);
        lemma_tokens_concat(x, y, d);
    } else {
        assert(s.subrange(pos, s.len() as int).len() == 0);
    }
}

/// Partitioning loses and splits no word: for every buffer and every partition count `n >= 1`,
/// the words of the partitions, taken in order, are exactly the words of the whole buffer.
pub proof fn lemma_partitions_complete(s: Seq<u8>, d: Set<u8>, n: int)
    requires
        n >= 1,
    ensures
        tokens_of_ranges(s, d, partition_of(s, d, n)) == tokens(s, d),
{
    lemma_ranges_from_tokens(s, d, chunk_step(s.len() as int / n), 0);
    assert(s.subrange(0, s.len() as int) == s);
}

/// The partitions are contiguous and non-empty, cover the buffer from its start to its end, and
/// every boundary inside the buffer falls on a delimiter byte.
pub proof fn lemma_partitions_split_at_delims(s: Seq<u8>, d: Set<u8>, n: int)
    requires
        n >= 1,
    ensures
        ({
            let rs = partition_of(s, d, n);
            &&& (s.len() == 0 <==> rs.len() == 0)
            &&& (rs.len() > 0 ==> rs[0].0 == 0 && rs.last().1 == s.len())
            &&& forall|i: int| 0 <= i < rs.len() ==> 0 <= (#[trigger] rs[i]).0 < rs[i].1 <= s.len()
            &&& forall|i: int| 0 <= i < rs.len() - 1 ==> (#[trigger] rs[i]).1 == rs[i + 1].0
            &&& forall|i: int| 0 <= i < rs.len() - 1 ==> d.contains(s[(#[trigger] rs[i]).1])
        }),
{
    let rs = partition_of(s, d, n);
    lemma_ranges_from_shape(s, d, chunk_step(s.len() as int / n), 0);
    assert forall|i: int| 0 <= i < rs.len() - 1 implies d.contains(s[(#[trigger] rs[i]).1]) by {
        assert(rs[i].1 == rs[i + 1].0);
        assert(rs[i + 1].0 < rs[i + 1].1 <= s.len());
    }
}

/// Partitioning is deterministic: the same buffer, partition count and delimiters give the same
/// ranges, every time.
pub proof fn lemma_partitions_repeatable(
    s1: Seq<u8>,
    d1: Set<u8>,
    n1: int,
    s2: Seq<u8>,
    d2: Set<u8>,
    n2: int,
)
    requires
        s1 == s2,
        d1 == d2,
        n1 == n2,
        n1 >= 1,
    ensures
        partition_of(s1, d1, n1) == partition_of(s2, d2, n2),
{
}

/// The frequency table of a list of words is unique; in particular the result of counting a
/// buffer does not depend on how many partitions it was counted in.
pub proof fn lemma_table_of_unique(t1: Seq<(Seq<u8>, nat)>, t2: Seq<(Seq<u8>, nat)>, ts: Seq<Seq<u8>>)
    requires
        is_table_of(t1, ts),
        is_table_of(t2, ts),
    ensures
        t1 == t2,
{
    lemma_table_unique(t1, t2);
}

/// A buffer made of delimiters only has no words.
pub proof fn lemma_only_delims_no_words(s: Seq<u8>, d: Set<u8>)
    requires
        forall|i: int| 0 <= i < s.len() ==> d.contains(#[trigger] s[i]),
    ensures
        tokens(s, d).len() == 0,
    decreases s.len(),
{
    if s.len() > 0 {
        assert forall|i: int| 0 <= i < s.drop_first().len() implies d.contains(#[trigger] s.drop_first()[i]) by {
            assert(s.drop_first()[i] == s[i + 1]);
        }
        lemma_only_delims_no_words(s.drop_first(), d);
        assert(d.contains(s[0]));
    }
}

/// One word-counting job: a read-only buffer, the approximate size of its partitions, and the
/// delimiter bytes that separate words.
pub struct Job<'a> {
    buf: &'a [u8],
    approx_chunk_size: usize,
    delims: DelimSet,
}

impl<'a> Job<'a> {
    /// The buffer.
    pub closed spec fn buf_view(&self) -> Seq<u8> {
        self.buf@
    }

    /// The delimiter bytes.
    pub closed spec fn delim_view(&self) -> Set<u8> {
        self.delims@
    }

    /// The buffer length divided by the partition count.
    pub closed spec fn approx_chunk_size(&self) -> int {
        self.approx_chunk_size as int
    }

    /// The partitions that this job counts, in order.
    pub open spec fn partitions(&self) -> Seq<(int, int)> {
        ranges_from(self.buf_view(), self.delim_view(), chunk_step(self.approx_chunk_size()), 0)
    }

    /// Sets up a job that counts the words of `buf` in `nthreads` partitions, a byte being a
    /// delimiter where `isdelim` holds of it.
    pub fn new<F: Fn(&u8) -> bool>(buf: &'a [u8], nthreads: usize, isdelim: F) -> (r: Job<'a>)
        requires
            nthreads >= 1,
            forall|b: u8| isdelim.requires((&b,)),
        ensures
            r.buf_view() == buf@,
            r.approx_chunk_size() == buf@.len() as int / (nthreads as int),
            forall|b: u8| isdelim.ensures((&b,), #[trigger] r.delim_view().contains(b)),
            r.partitions() == partition_of(buf@, r.delim_view(), nthreads as int),
    {
        let len = buf.len();
        Job { buf, approx_chunk_size: len / nthreads, delims: DelimSet::from_fn(isdelim) }
    }

    /// The buffer.
    pub fn buffer(&self) -> (r: &'a [u8])
        ensures
            r@ == self.buf_view(),
    {
        self.buf
    }

    /// The delimiter bytes.
    pub fn delims(&self) -> (r: &DelimSet)
        ensures
            r@ == self.delim_view(),
    {
        &self.delims
    }

    /// Walks the partitions from the start of the buffer.
    pub fn iter<'s>(&'s self) -> (r: JobChunkIter<'s, 'a>)
        ensures
            r.job() == self,
            r.pos() == 0,
            r.remaining() == self.partitions(),
    {
        JobChunkIter { job: self, pos: 0 }
    }

    /// All partitions, in order.
    pub fn ranges(&self) -> (r: Vec<Range<usize>>)
        ensures
            range_pairs(r@) == self.partitions(),
    {
        let mut it = self.iter();
        let mut out: Vec<Range<usize>> = Vec::new();
        loop
            invariant
                it.job() == self,
                it.pos() <= self.buf_view().len(),
                range_pairs(out@) + it.remaining() == self.partitions(),
            ensures
                range_pairs(out@) == self.partitions(),
            decreases self.buf_view().len() - it.pos(),
        {
            let ghost before = it.remaining();
            match it.next() {
                None => {
                    assert(range_pairs(out@) + before == range_pairs(out@));
                    break;
                },
                Some(g) => {
                    let ghost prev = out@;
                    out.push(g);
                    assert(range_pairs(out@) == range_pairs(prev).push(before[0]));
                    assert(before == seq![before[0]] + before.drop_first());
                    assert(range_pairs(out@) + it.remaining() == range_pairs(prev) + before);
                },
            }
        }
        out
    }

    /// Counts the words of the whole buffer, partition by partition, folding each partition's
    /// table into the result. The result is the frequency table of the buffer's words, whatever
    /// the partition count.
    pub fn run(&self) -> (r: Table)
        ensures
            is_table_of(table_view(r@), tokens(self.buf_view(), self.delim_view())),
            forall|i: int| 0 <= i < r@.len() ==> is_word(#[trigger] r@[i].0@, self.delim_view()),
            (forall|i: int| 0 <= i < self.buf_view().len() ==> self.delim_view().contains(
                #[trigger] self.buf_view()[i],
            )) ==> r@.len() == 0,
    {
        let ghost s = self.buf_view();
        let ghost d = self.delim_view();
        let mut it = self.iter();
        let mut acc: Table = Vec::new();
        assert(s.take(0) == Seq::<u8>::empty());
        loop
            invariant
                it.job() == self,
                s == self.buf_view(),
                d == self.delim_view(),
                it.pos() <= s.len(),
                it.pos() == 0 || it.pos() == s.len() || d.contains(s[it.pos()]),
                is_table_of(table_view(acc@), tokens(s.take(it.pos()), d)),
            ensures
                is_table_of(table_view(acc@), tokens(s, d)),
            decreases s.len() - it.pos(),
        {
            let ghost start = it.pos();
            match it.next() {
                None => {
                    assert(s.take(start) == s);
                    break;
                },
                Some(g) => {
                    let chunk = slice_subrange(self.buf, g.start, g.end);
                    let t = count_words(chunk, &self.delims);
                    let ghost x = s.take(start);
                    let ghost y = chunk@;
                    proof {
                        lemma_tokens_concat(x, y, d);
                        assert(s.take(g.end as int) == x + y);
                        let all = tokens(s.take(g.end as int), d);
                        lemma_tokens_len(s.take(g.end as int), d);
                        assert forall|w: Seq<u8>| #[trigger] tcount(table_view(acc@), w) + tcount(
                            table_view(t@),
                            w,
                        ) == occurrences(all, w) by {
                            lemma_occurrences_concat(tokens(x, d), tokens(y, d), w);
                        }
                        assert forall|w: Seq<u8>| #[trigger] tcount(table_view(acc@), w) + tcount(
                            table_view(t@),
                            w,
                        ) <= usize::MAX by {
                            lemma_occurrences_le_len(all, w);
                        }
                        assert(sums_fit(table_view(acc@), table_view(t@)));
                        lemma_merged_wf(table_view(acc@), table_view(t@));
                        assert forall|w: Seq<u8>| #[trigger] tcount(
                            merged(table_view(acc@), table_view(t@)),
                            w,
                        ) == occurrences(all, w) by {
                            lemma_merged_counts(table_view(acc@), table_view(t@), w);
                        }
                    }
                    acc = merge(acc, t);
                },
            }
        }
        proof {
            lemma_table_keys_are_words(table_view(acc@), s, d);
            assert forall|i: int| 0 <= i < acc@.len() implies is_word(#[trigger] acc@[i].0@, d) by {
                assert(table_view(acc@)[i].0 == acc@[i].0@);
            }
            if forall|i: int| 0 <= i < s.len() ==> d.contains(#[trigger] s[i]) {
                lemma_only_delims_no_words(s, d);
                lemma_table_unique(table_view(acc@), Seq::<(Seq<u8>, nat)>::empty());
            }
        }
        acc
    }
}

/// A cursor over the partitions of a job. Each call of `next` hands out the next partition; the
/// partitions are contiguous, non-empty, and every boundary inside the buffer is a delimiter.
pub struct JobChunkIter<'s, 'a> {
    job: &'s Job<'a>,
    pos: usize,
}

impl<'s, 'a> JobChunkIter<'s, 'a> {
    #[verifier::type_invariant]
    spec fn pos_in_buffer(&self) -> bool {
        self.pos <= self.job.buf@.len()
    }

    /// The job being walked.
    pub closed spec fn job(&self) -> &'s Job<'a> {
        self.job
    }

    /// Where the next partition starts.
    pub closed spec fn pos(&self) -> int {
        self.pos as int
    }

    /// The partitions still to come.
    pub open spec fn remaining(&self) -> Seq<(int, int)> {
        ranges_from(
            self.job().buf_view(),
            self.job().delim_view(),
            chunk_step(self.job().approx_chunk_size()),
            self.pos(),
        )
    }

    /// The next partition, as a half-open range of the buffer, or `None` at the end.
    pub fn next(&mut self) -> (r: Option<Range<usize>>)
        ensures
            final(self).job() == old(self).job(),
            final(self).pos() <= final(self).job().buf_view().len(),
            match r {
                None => {
                    &&& old(self).remaining().len() == 0
                    &&& old(self).pos() == old(self).job().buf_view().len()
                    &&& final(self).pos() == old(self).pos()
                },
                Some(g) => {
                    let s = old(self).job().buf_view();
                    &&& old(self).remaining().len() > 0
                    &&& (g.start as int, g.end as int) == old(self).remaining()[0]
                    &&& final(self).remaining() == old(self).remaining().drop_first()
                    &&& g.start == old(self).pos()
                    &&& g.end == final(self).pos()
                    &&& g.start < g.end <= s.len()
                    &&& (g.end == s.len() || old(self).job().delim_view().contains(s[g.end as int]))
                },
            },
    {
        proof {
            use_type_invariant(&*self);
        }
        let job = self.job;
        let buf = job.buf;
        let ghost s = buf@;
        let ghost d = job.delims@;
        let ghost step = chunk_step(job.approx_chunk_size as int);
        let oldpos = self.pos;
        let len = buf.len();
        let step_exec = if job.approx_chunk_size == 0 { 1 } else { job.approx_chunk_size };
        let candidate = if step_exec < len - oldpos { oldpos + step_exec } else { len };
        let mut end = candidate;
        while end < len && !job.delims.contains(buf[end])
            invariant
                candidate <= end <= len,
                len == s.len(),
                s == buf@,
                d == job.delims@,
                first_delim_from(s, d, candidate as int) == first_delim_from(s, d, end as int),
            decreases len - end,
        {
            end = end + 1;
        }
        proof {
            lemma_first_delim_from(s, d, end as int);
        }
        if end < len {
            self.pos = end;
            proof {
                lemma_chunk_end(s, d, step, oldpos as int);
            }
            Some(Range { start: oldpos, end })
        } else if oldpos < len {
            self.pos = len;
            proof {
                lemma_chunk_end(s, d, step, oldpos as int);
            }
            Some(Range { start: oldpos, end: len })
        } else {
            None
        }
    }
}

} // verus!
