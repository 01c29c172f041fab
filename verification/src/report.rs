//! What a run reports: per-path line counts from write-back, and the
//! duplicate and collision tallies over the observed repeats.

use vstd::prelude::*;

verus! {

use crate::Repeat;
use crate::lex::{lex_le, str_le, lemma_lex_total, lemma_lex_trans};

broadcast use vstd::seq_lib::group_to_multiset_ensures;

/// The model of a list of per-path counts: each path's characters with its
/// count as a mathematical integer.
pub open spec fn counts_view(s: Seq<(String, usize)>) -> Seq<(Seq<char>, int)> {
    Seq::new(s.len(), |i: int| (s[i].0@, s[i].1 as int))
}

/// The total of the per-path line counts.
pub open spec fn sum_counts(s: Seq<(Seq<char>, int)>) -> int
    decreases s.len(),
{
    if s.len() == 0 {
        0
    } else {
        sum_counts(s.drop_last()) + s.last().1
    }
}

/// Counts, in ascending path order when listed, how many lines write-back
/// put into each output-relative path.
#[derive(Clone, Debug, PartialEq, Eq)]
pub struct WriteReport {
    file_counts: Vec<(String, usize)>,
}

/// Sorted ascending by the lexicographic order of the paths' UTF-8 bytes.
pub open spec fn sorted_by_path(s: Seq<(Seq<char>, int)>) -> bool {
    forall|i: int, j: int|
        0 <= i < j < s.len() ==> lex_le(
            vstd::utf8::encode_utf8(#[trigger] s[i].0),
            vstd::utf8::encode_utf8(#[trigger] s[j].0),
        )
}

impl WriteReport {
    /// The per-path line counts: each output-relative path with the number
    /// of lines written to it.
    pub closed spec fn counts(self) -> Seq<(Seq<char>, int)> {
        counts_view(self.file_counts@)
    }

    /// No path is listed twice, and the total line count fits the machine.
    pub open spec fn wf(self) -> bool {
        &&& forall|i: int, j: int|
            0 <= i < self.counts().len() && 0 <= j < self.counts().len() && i != j
                ==> (#[trigger] self.counts()[i]).0 != (#[trigger] self.counts()[j]).0
        &&& sum_counts(self.counts()) <= usize::MAX
    }

    pub fn new(file_counts: Vec<(String, usize)>) -> (r: Self)
        requires
            forall|i: int, j: int|
                0 <= i < file_counts@.len() && 0 <= j < file_counts@.len() && i != j
                    ==> (#[trigger] file_counts@[i]).0@ != (#[trigger] file_counts@[j]).0@,
            sum_counts(counts_view(file_counts@)) <= usize::MAX,
        ensures
            r.wf(),
            r.counts() == counts_view(file_counts@),
    {
        Self { file_counts }
    }

    /// Every listed path with its line count, in ascending path order.
    pub fn file_counts(&self) -> (r: Vec<(String, usize)>)
        ensures
            sorted_by_path(counts_view(r@)),
            counts_view(r@).to_multiset() == self.counts().to_multiset(),
    {
        let mut out: Vec<(String, usize)> = Vec::new();
        let mut i: usize = 0;
        proof {
            assert(counts_view(out@) =~= Seq::<(Seq<char>, int)>::empty());
            assert(counts_view(self.file_counts@.take(0)) =~= Seq::<(Seq<char>, int)>::empty());
        }
        while i < self.file_counts.len()
            invariant
                i <= self.file_counts@.len(),
                sorted_by_path(counts_view(out@)),
                counts_view(out@).to_multiset() == counts_view(
                    self.file_counts@.take(i as int),
                ).to_multiset(),
            decreases self.file_counts@.len() - i,
        {
            let e = (self.file_counts[i].0.clone(), self.file_counts[i].1);
            proof {
                let pre = counts_view(self.file_counts@.take(i as int));
                let post = counts_view(self.file_counts@.take(i + 1));
                assert(post =~= pre.push((self.file_counts@[i as int].0@,
                    self.file_counts@[i as int].1 as int)));
            }
            insert_sorted_count(&mut out, e);
            i = i + 1;
        }
        proof {
            assert(self.file_counts@.take(self.file_counts@.len() as int) =~= self.file_counts@);
        }
        out
    }

    /// How many output files were written.
    pub fn file_count(&self) -> (r: usize)
        ensures
            r == self.counts().len(),
    {
        self.file_counts.len()
    }

    /// How many lines were written over all output files.
    pub fn line_count(&self) -> (r: usize)
        requires
            self.wf(),
        ensures
            r == sum_counts(self.counts()),
    {
        let mut total: usize = 0;
        let mut i: usize = 0;
        let ghost cs = self.counts();
        proof {
            assert(cs.take(0) =~= Seq::<(Seq<char>, int)>::empty());
            lemma_sum_counts_bounds(cs);
        }
        while i < self.file_counts.len()
            invariant
                i <= cs.len(),
                cs.len() == self.file_counts@.len(),
                cs == self.counts(),
                self.wf(),
                total == sum_counts(cs.take(i as int)),
                total <= sum_counts(cs),
            decreases cs.len() - i,
        {
            proof {
                assert(cs.take(i + 1).drop_last() =~= cs.take(i as int));
                assert(cs.take(i + 1).last() == cs[i as int]);
                lemma_sum_counts_prefix(cs, i + 1);
                assert(cs[i as int].1 == self.file_counts@[i as int].1 as int);
                assert forall|j: int| 0 <= j < cs.len() implies (#[trigger] cs[j]).1 >= 0 by {
                    assert(cs[j].1 == self.file_counts@[j].1 as int);
                }
                lemma_sum_counts_prefix_le(cs, i + 1);
            }
            total = total + self.file_counts[i].1;
            i = i + 1;
        }
        proof {
            assert(cs.take(cs.len() as int) =~= cs);
        }
        total
    }
}

/// Each count is nonnegative, so every prefix sum is at most the whole sum.
proof fn lemma_sum_counts_nonneg(s: Seq<(Seq<char>, int)>)
    requires
        forall|i: int| 0 <= i < s.len() ==> (#[trigger] s[i]).1 >= 0,
    ensures
        sum_counts(s) >= 0,
    decreases s.len(),
{
    if s.len() > 0 {
        lemma_sum_counts_nonneg(s.drop_last());
    }
}

/// A prefix never sums to more than the whole, when counts are nonnegative.
proof fn lemma_sum_counts_prefix_le(s: Seq<(Seq<char>, int)>, n: int)
    requires
        0 <= n <= s.len(),
        forall|i: int| 0 <= i < s.len() ==> (#[trigger] s[i]).1 >= 0,
    ensures
        sum_counts(s.take(n)) <= sum_counts(s),
    decreases s.len() - n,
{
    if n == s.len() {
        assert(s.take(n) =~= s);
    } else {
        lemma_sum_counts_prefix_le(s, n + 1);
        assert(s.take(n + 1).drop_last() =~= s.take(n));
        lemma_sum_counts_prefix(s, n + 1);
    }
}

/// Unfolds one step of the prefix sum.
proof fn lemma_sum_counts_prefix(s: Seq<(Seq<char>, int)>, n: int)
    requires
        0 < n <= s.len(),
    ensures
        sum_counts(s.take(n)) == sum_counts(s.take(n - 1)) + s[n - 1].1,
{
    assert(s.take(n).drop_last() =~= s.take(n - 1));
    assert(s.take(n).last() == s[n - 1]);
}

/// Bundles the two bounds `line_count` needs.
proof fn lemma_sum_counts_bounds(s: Seq<(Seq<char>, int)>)
    requires
        forall|i: int| 0 <= i < s.len() ==> (#[trigger] s[i]).1 >= 0,
    ensures
        forall|n: int| 0 <= n <= s.len() ==> sum_counts(#[trigger] s.take(n)) <= sum_counts(s),
        sum_counts(s) >= 0,
{
    lemma_sum_counts_nonneg(s);
    assert forall|n: int| 0 <= n <= s.len() implies sum_counts(#[trigger] s.take(n)) <= sum_counts(
        s,
    ) by {
        lemma_sum_counts_prefix_le(s, n);
    }
}

/// Inserts an element into a path-sorted list, keeping it sorted.
fn insert_sorted_count(out: &mut Vec<(String, usize)>, e: (String, usize))
    requires
        sorted_by_path(counts_view(old(out)@)),
    ensures
        sorted_by_path(counts_view(final(out)@)),
        counts_view(final(out)@).to_multiset() == counts_view(old(out)@).to_multiset().insert(
            (e.0@, e.1 as int),
        ),
{
    let mut idx: usize = 0;
    while idx < out.len() && str_le(out[idx].0.as_str(), e.0.as_str())
        invariant
            idx <= out@.len(),
            out == old(out),
            forall|j: int|
                0 <= j < idx ==> lex_le(
                    vstd::utf8::encode_utf8((#[trigger] counts_view(out@)[j]).0),
                    vstd::utf8::encode_utf8(e.0@),
                ),
        decreases out@.len() - idx,
    {
        idx = idx + 1;
    }
    proof {
        if idx < out@.len() {
            lemma_lex_total(
                vstd::utf8::encode_utf8(out@[idx as int].0@),
                vstd::utf8::encode_utf8(e.0@),
            );
        }
    }
    let ghost old_view = counts_view(out@);
    let ghost eview = (e.0@, e.1 as int);
    let ghost at = idx as int;
    out.insert(idx, e);
    proof {
        let new_view = counts_view(out@);
        assert(new_view =~= old_view.insert(at, eview));
        assert(sorted_by_path(new_view)) by {
            assert forall|i: int, j: int| 0 <= i < j < new_view.len() implies lex_le(
                vstd::utf8::encode_utf8((#[trigger] new_view[i]).0),
                vstd::utf8::encode_utf8((#[trigger] new_view[j]).0),
            ) by {
                let ii = if i < at {
                    i
                } else {
                    i - 1
                };
                let jj = if j < at {
                    j
                } else {
                    j - 1
                };
                if i == at {
                    // eview before an old element at or past the slot
                    assert(new_view[j] == old_view[jj]);
                    if jj > at {
                        lemma_lex_trans(
                            vstd::utf8::encode_utf8(eview.0),
                            vstd::utf8::encode_utf8(old_view[at].0),
                            vstd::utf8::encode_utf8(old_view[jj].0),
                        );
                    }
                } else if j == at {
                    assert(new_view[i] == old_view[ii]);
                } else {
                    assert(new_view[i] == old_view[ii]);
                    assert(new_view[j] == old_view[jj]);
                    if ii == jj {
                        // only when i < at <= j, so i and j straddle the new slot
                        lemma_lex_trans(
                            vstd::utf8::encode_utf8(old_view[ii].0),
                            vstd::utf8::encode_utf8(eview.0),
                            vstd::utf8::encode_utf8(old_view[jj].0),
                        );
                    }
                }
            }
        }
    }
}

/// Counts the collision repeats in a list.
pub open spec fn coll_count(s: Seq<Repeat>) -> int
    decreases s.len(),
{
    if s.len() == 0 {
        0
    } else {
        coll_count(s.drop_last()) + if s.last().replacement is Some {
            1int
        } else {
            0int
        }
    }
}

/// Counts the duplicate repeats in a list.
pub open spec fn dup_count(s: Seq<Repeat>) -> int
    decreases s.len(),
{
    if s.len() == 0 {
        0
    } else {
        dup_count(s.drop_last()) + if s.last().replacement is Some {
            0int
        } else {
            1int
        }
    }
}

/// Every repeat is a duplicate or a collision, so the two counts always
/// add up to the number of repeats.
pub proof fn lemma_repeat_counts(s: Seq<Repeat>)
    ensures
        dup_count(s) + coll_count(s) == s.len(),
        dup_count(s) >= 0,
        coll_count(s) >= 0,
    decreases s.len(),
{
    if s.len() > 0 {
        lemma_repeat_counts(s.drop_last());
    }
}

/// What a whole run returned: every repeat observed during ingestion, in
/// aggregation order, and the write-back's per-path line counts.
#[derive(Clone, Debug, PartialEq, Eq)]
pub struct RunReport {
    pub repeats: Vec<Repeat>,
    pub write_report: WriteReport,
}

impl RunReport {
    /// How many repeats were duplicates: the stored value was identical.
    pub fn duplicate_count(&self) -> (r: usize)
        ensures
            r == dup_count(self.repeats@),
    {
        let mut total: usize = 0;
        let mut i: usize = 0;
        proof {
            assert(self.repeats@.take(0) =~= Seq::<Repeat>::empty());
        }
        while i < self.repeats.len()
            invariant
                i <= self.repeats@.len(),
                total == dup_count(self.repeats@.take(i as int)),
                total <= i,
            decreases self.repeats@.len() - i,
        {
            proof {
                assert(self.repeats@.take(i + 1).drop_last() =~= self.repeats@.take(i as int));
                assert(self.repeats@.take(i + 1).last() == self.repeats@[i as int]);
                lemma_repeat_counts(self.repeats@.take(i as int));
            }
            if self.repeats[i].replacement.is_none() {
                total = total + 1;
            }
            i = i + 1;
        }
        proof {
            assert(self.repeats@.take(self.repeats@.len() as int) =~= self.repeats@);
        }
        total
    }

    /// How many repeats were collisions: the stored value differed.
    pub fn collision_count(&self) -> (r: usize)
        ensures
            r == coll_count(self.repeats@),
    {
        let mut total: usize = 0;
        let mut i: usize = 0;
        proof {
            assert(self.repeats@.take(0) =~= Seq::<Repeat>::empty());
        }
        while i < self.repeats.len()
            invariant
                i <= self.repeats@.len(),
                total == coll_count(self.repeats@.take(i as int)),
                total <= i,
            decreases self.repeats@.len() - i,
        {
            proof {
                assert(self.repeats@.take(i + 1).drop_last() =~= self.repeats@.take(i as int));
                assert(self.repeats@.take(i + 1).last() == self.repeats@[i as int]);
                lemma_repeat_counts(self.repeats@.take(i as int));
            }
            if self.repeats[i].replacement.is_some() {
                total = total + 1;
            }
            i = i + 1;
        }
        proof {
            assert(self.repeats@.take(self.repeats@.len() as int) =~= self.repeats@);
        }
        total
    }
}

} // verus!
