//! A rank/select index over an ascending disjoint interval list: map a
//! dense ordinal to its codepoint and back, and find the first ordinal at
//! or above a codepoint.

use vstd::prelude::*;

verus! {

use crate::{covers, Interval};
use crate::intervals::{intervals_ordered, lemma_ordered_chain};

/// The number of codepoints in one inclusive interval.
pub open spec fn interval_size(iv: Interval) -> int {
    iv.1 - iv.0 + 1
}

/// The number of codepoints covered by a list of disjoint intervals.
pub open spec fn total_size(ivs: Seq<Interval>) -> int
    decreases ivs.len(),
{
    if ivs.len() == 0 {
        0
    } else {
        interval_size(ivs[0]) + total_size(ivs.drop_first())
    }
}

/// The number of covered codepoints strictly below `x`: the ordinal of `x`
/// if it is covered, and of the next covered codepoint above it if not.
pub open spec fn rank_of(ivs: Seq<Interval>, x: int) -> int
    decreases ivs.len(),
{
    if ivs.len() == 0 {
        0
    } else {
        let below = if x < ivs[0].0 {
            0
        } else if x > ivs[0].1 {
            interval_size(ivs[0])
        } else {
            x - ivs[0].0
        };
        below + rank_of(ivs.drop_first(), x)
    }
}

/// The codepoint with ordinal `k` in the flattened list.
pub open spec fn point_at(ivs: Seq<Interval>, k: int) -> int
    decreases ivs.len(),
{
    if ivs.len() == 0 {
        0
    } else if k < interval_size(ivs[0]) {
        ivs[0].0 + k
    } else {
        point_at(ivs.drop_first(), k - interval_size(ivs[0]))
    }
}

/// Total size distributes over concatenation.
pub proof fn lemma_total_size_cat(a: Seq<Interval>, b: Seq<Interval>)
    ensures
        total_size(a + b) == total_size(a) + total_size(b),
    decreases a.len(),
{
    if a.len() == 0 {
        assert(a + b =~= b);
    } else {
        assert((a + b).drop_first() =~= a.drop_first() + b);
        lemma_total_size_cat(a.drop_first(), b);
    }
}

/// Appending one interval adds its size.
pub proof fn lemma_total_size_push(s: Seq<Interval>, iv: Interval)
    ensures
        total_size(s.push(iv)) == total_size(s) + interval_size(iv),
{
    assert(s.push(iv) =~= s + seq![iv]);
    lemma_total_size_cat(s, seq![iv]);
    assert(seq![iv].drop_first() =~= Seq::<Interval>::empty());
    assert(total_size(seq![iv].drop_first()) == 0);
    assert(total_size(seq![iv]) == interval_size(seq![iv][0]) + total_size(
        seq![iv].drop_first(),
    ));
    assert(seq![iv][0] == iv);
}

/// A well-formed list has at least one codepoint per interval.
pub proof fn lemma_total_size_bounds(ivs: Seq<Interval>)
    requires
        forall|i: int| 0 <= i < ivs.len() ==> (#[trigger] ivs[i]).0 <= ivs[i].1,
    ensures
        total_size(ivs) >= ivs.len(),
    decreases ivs.len(),
{
    if ivs.len() > 0 {
        assert(forall|i: int|
            0 <= i < ivs.drop_first().len() ==> #[trigger] ivs.drop_first()[i] == ivs[i + 1]);
        lemma_total_size_bounds(ivs.drop_first());
    }
}

/// A prefix and the rest of the list split the total size.
pub proof fn lemma_total_size_split(ivs: Seq<Interval>, i: int)
    requires
        0 <= i <= ivs.len(),
    ensures
        total_size(ivs) == total_size(ivs.take(i)) + total_size(ivs.skip(i)),
{
    assert(ivs =~= ivs.take(i) + ivs.skip(i));
    lemma_total_size_cat(ivs.take(i), ivs.skip(i));
}

/// A rank never exceeds the total size.
pub proof fn lemma_rank_bounds(ivs: Seq<Interval>, x: int)
    requires
        forall|i: int| 0 <= i < ivs.len() ==> (#[trigger] ivs[i]).0 <= ivs[i].1,
    ensures
        0 <= rank_of(ivs, x) <= total_size(ivs),
    decreases ivs.len(),
{
    if ivs.len() > 0 {
        assert(forall|i: int|
            0 <= i < ivs.drop_first().len() ==> #[trigger] ivs.drop_first()[i] == ivs[i + 1]);
        lemma_rank_bounds(ivs.drop_first(), x);
    }
}

/// Nothing below the first interval counts toward a rank.
pub proof fn lemma_rank_zero_below(ivs: Seq<Interval>, x: int)
    requires
        intervals_ordered(ivs),
        ivs.len() == 0 || x < ivs[0].0,
    ensures
        rank_of(ivs, x) == 0,
    decreases ivs.len(),
{
    if ivs.len() > 0 {
        let rest = ivs.drop_first();
        assert(forall|i: int| 0 <= i < rest.len() ==> #[trigger] rest[i] == ivs[i + 1]);
        if rest.len() > 0 {
            lemma_ordered_chain(ivs, 0, 1);
        }
        lemma_rank_zero_below(rest, x);
    }
}

/// Everything past the last interval counts fully toward a rank.
pub proof fn lemma_rank_above_all(ivs: Seq<Interval>, x: int)
    requires
        intervals_ordered(ivs),
        forall|i: int| 0 <= i < ivs.len() ==> (#[trigger] ivs[i]).1 < x,
    ensures
        rank_of(ivs, x) == total_size(ivs),
    decreases ivs.len(),
{
    if ivs.len() > 0 {
        let rest = ivs.drop_first();
        assert(forall|i: int| 0 <= i < rest.len() ==> #[trigger] rest[i] == ivs[i + 1]);
        lemma_rank_above_all(rest, x);
    }
}

/// A codepoint strictly above the last interval's end has the one-past-end
/// rank: `index_above` answers the total size for it.
pub proof fn lemma_rank_beyond_last(ivs: Seq<Interval>, x: int)
    requires
        intervals_ordered(ivs),
        ivs.len() > 0,
        x > ivs.last().1,
    ensures
        rank_of(ivs, x) == total_size(ivs),
{
    assert forall|i: int| 0 <= i < ivs.len() implies (#[trigger] ivs[i]).1 < x by {
        if i < ivs.len() - 1 {
            lemma_ordered_chain(ivs, i, ivs.len() - 1);
        }
    }
    lemma_rank_above_all(ivs, x);
}

/// Any tail of an ordered list is ordered.
pub proof fn lemma_skip_ordered(ivs: Seq<Interval>, i: int)
    requires
        intervals_ordered(ivs),
        0 <= i <= ivs.len(),
    ensures
        intervals_ordered(ivs.skip(i)),
{
    let rest = ivs.skip(i);
    assert(forall|p: int| 0 <= p < rest.len() ==> #[trigger] rest[p] == ivs[p + i]);
}

/// The rank splits at an index whose earlier intervals all end below `x`.
pub proof fn lemma_rank_decompose(ivs: Seq<Interval>, i: int, x: int)
    requires
        intervals_ordered(ivs),
        0 <= i <= ivs.len(),
        forall|j: int| 0 <= j < i ==> (#[trigger] ivs[j]).1 < x,
    ensures
        rank_of(ivs, x) == total_size(ivs.take(i)) + rank_of(ivs.skip(i), x),
    decreases i,
{
    if i == 0 {
        assert(ivs.take(0) =~= Seq::<Interval>::empty());
        assert(ivs.skip(0) =~= ivs);
    } else {
        let rest = ivs.drop_first();
        assert(forall|j: int| 0 <= j < rest.len() ==> #[trigger] rest[j] == ivs[j + 1]);
        lemma_rank_decompose(rest, i - 1, x);
        assert(rest.take(i - 1) =~= ivs.take(i).drop_first());
        assert(rest.skip(i - 1) =~= ivs.skip(i));
        assert(total_size(ivs.take(i)) == interval_size(ivs[0]) + total_size(rest.take(i - 1)));
    }
}

/// The ordinal-to-codepoint map lands in the interval holding that ordinal.
pub proof fn lemma_point_at_at(ivs: Seq<Interval>, j: int, k: int)
    requires
        intervals_ordered(ivs),
        0 <= j < ivs.len(),
        total_size(ivs.take(j)) <= k < total_size(ivs.take(j + 1)),
    ensures
        point_at(ivs, k) == ivs[j].0 + (k - total_size(ivs.take(j))),
    decreases j,
{
    assert(ivs.take(j + 1) =~= ivs.take(j).push(ivs[j]));
    lemma_total_size_push(ivs.take(j), ivs[j]);
    if j == 0 {
        assert(ivs.take(0) =~= Seq::<Interval>::empty());
        assert(total_size(ivs.take(0)) == 0);
        assert(k < interval_size(ivs[0]));
    } else {
        let rest = ivs.drop_first();
        assert(forall|p: int| 0 <= p < rest.len() ==> #[trigger] rest[p] == ivs[p + 1]);
        assert(rest.take(j - 1) =~= ivs.take(j).drop_first());
        assert(rest.take(j) =~= ivs.take(j + 1).drop_first());
        assert(total_size(ivs.take(j)) == interval_size(ivs[0]) + total_size(rest.take(j - 1)));
        assert(total_size(ivs.take(j + 1)) == interval_size(ivs[0]) + total_size(rest.take(j)));
        assert forall|p: int|
            0 <= p < rest.take(j - 1).len() implies (#[trigger] rest.take(j - 1)[p]).0
            <= rest.take(j - 1)[p].1 by {
            assert(rest.take(j - 1)[p] == ivs[p + 1]);
        }
        lemma_total_size_bounds(rest.take(j - 1));
        assert(k >= interval_size(ivs[0]));
        lemma_point_at_at(rest, j - 1, k - interval_size(ivs[0]));
    }
}

/// Rank and select are inverse: the codepoint at ordinal `k` is covered,
/// and its rank is `k` again.
pub proof fn lemma_rank_of_point_at(ivs: Seq<Interval>, k: int)
    requires
        intervals_ordered(ivs),
        0 <= k < total_size(ivs),
    ensures
        covers(ivs, point_at(ivs, k)),
        rank_of(ivs, point_at(ivs, k)) == k,
    decreases ivs.len(),
{
    let p = point_at(ivs, k);
    let rest = ivs.drop_first();
    assert(forall|i: int| 0 <= i < rest.len() ==> #[trigger] rest[i] == ivs[i + 1]);
    if k < interval_size(ivs[0]) {
        assert(ivs[0].0 <= p <= ivs[0].1);
        assert(covers(ivs, p));
        if rest.len() > 0 {
            lemma_ordered_chain(ivs, 0, 1);
        }
        lemma_rank_zero_below(rest, p);
    } else {
        lemma_rank_of_point_at(rest, k - interval_size(ivs[0]));
        let p2 = point_at(rest, k - interval_size(ivs[0]));
        assert(p == p2);
        assert(covers(rest, p));
        let w = choose|i: int| 0 <= i < rest.len() && (#[trigger] rest[i]).0 <= p <= rest[i].1;
        assert(rest[w] == ivs[w + 1]);
        lemma_ordered_chain(ivs, 0, w + 1);
        assert(p > ivs[0].1);
        assert(covers(ivs, p));
    }
}

/// An interval-list rank/select structure: the intervals, a parallel
/// prefix-sum array of their sizes, and the total codepoint count.
#[derive(Debug)]
pub struct IntervalSet {
    intervals: Vec<Interval>,
    offsets: Vec<u32>,
    /// The total number of codepoints covered by the intervals.
    pub size: u32,
}

impl IntervalSet {
    /// The interval list this structure was built from.
    pub closed spec fn ivs(self) -> Seq<Interval> {
        self.intervals@
    }

    /// The total codepoint count, as seen by specifications.
    pub closed spec fn spec_size(self) -> u32 {
        self.size
    }

    /// The intervals are ordered, the offsets are their prefix sums, and
    /// `size` is the total codepoint count.
    pub closed spec fn wf(self) -> bool {
        &&& intervals_ordered(self.intervals@)
        &&& self.offsets@.len() == self.intervals@.len() + 1
        &&& forall|i: int|
            0 <= i <= self.intervals@.len() ==> (#[trigger] self.offsets@[i]) == total_size(
                self.intervals@.take(i),
            )
        &&& self.size == total_size(self.intervals@)
    }

    /// Build the index from an ascending, disjoint interval list.
    pub fn new(intervals: &[Interval]) -> (r: IntervalSet)
        requires
            intervals_ordered(intervals@),
            total_size(intervals@) <= u32::MAX,
        ensures
            r.wf(),
            r.ivs() == intervals@,
            r.spec_size() == total_size(intervals@),
    {
        let n = intervals.len();
        let mut ivs: Vec<Interval> = Vec::new();
        let mut offsets: Vec<u32> = Vec::new();
        offsets.push(0);
        let mut size: u32 = 0;
        let mut i: usize = 0;
        assert(intervals@.take(0) =~= Seq::<Interval>::empty());
        while i < n
            invariant
                0 <= i <= n == intervals@.len(),
                intervals_ordered(intervals@),
                total_size(intervals@) <= u32::MAX,
                ivs@ == intervals@.take(i as int),
                offsets@.len() == i + 1,
                forall|p: int|
                    0 <= p <= i ==> (#[trigger] offsets@[p]) == total_size(
                        intervals@.take(p),
                    ),
                size == total_size(intervals@.take(i as int)),
            decreases n - i,
        {
            let (u, v) = intervals[i];
            proof {
                assert(intervals@.take(i + 1) =~= intervals@.take(i as int).push((u, v)));
                lemma_total_size_push(intervals@.take(i as int), (u, v));
                lemma_total_size_split(intervals@, i + 1);
                assert forall|p: int|
                    0 <= p < intervals@.skip(i + 1).len() implies (#[trigger] intervals@.skip(
                    i + 1,
                )[p]).0 <= intervals@.skip(i + 1)[p].1 by {
                    assert(intervals@.skip(i + 1)[p] == intervals@[p + i + 1]);
                }
                lemma_total_size_bounds(intervals@.skip(i + 1));
            }
            size = size + (v - u + 1);
            offsets.push(size);
            ivs.push((u, v));
            proof {
                assert(ivs@ =~= intervals@.take(i + 1));
            }
            i += 1;
        }
        assert(intervals@.take(n as int) =~= intervals@);
        IntervalSet { intervals: ivs, offsets, size }
    }

    /// The codepoint at ordinal `index`, by binary search over the prefix
    /// sums.
    #[verifier::rlimit(100)]
    pub fn get(&self, index: u32) -> (r: u32)
        requires
            self.wf(),
            index < self.spec_size(),
        ensures
            r == point_at(self.ivs(), index as int),
            covers(self.ivs(), r as int),
            rank_of(self.ivs(), r as int) == index,
    {
        let n = self.intervals.len();
        proof {
            if n == 0 {
                assert(self.intervals@.take(0) =~= self.intervals@);
            }
        }
        let mut j = n - 1;
        if self.offsets[j] > index {
            let mut hi = j;
            let mut lo: usize = 0;
            proof {
                assert(self.offsets@[0] == total_size(self.intervals@.take(0)));
                assert(self.intervals@.take(0) =~= Seq::<Interval>::empty());
            }
            while lo + 1 < hi
                invariant
                    self.wf(),
                    0 <= lo < hi <= self.intervals@.len() - 1,
                    self.offsets@[lo as int] <= index,
                    index < self.offsets@[hi as int],
                decreases hi - lo,
            {
                let mid = lo + (hi - lo) / 2;
                if self.offsets[mid] <= index {
                    lo = mid;
                } else {
                    hi = mid;
                }
            }
            j = lo;
            assert(self.offsets@[j as int] <= index < self.offsets@[j + 1]);
        } else {
            assert(self.offsets@[j as int] <= index);
            assert(self.offsets@[n as int] == total_size(self.intervals@.take(n as int)));
            assert(self.intervals@.take(n as int) =~= self.intervals@);
            assert(index < self.offsets@[j + 1]);
        }
        proof {
            lemma_point_at_at(self.intervals@, j as int, index as int);
            assert(self.intervals@.take(j + 1) =~= self.intervals@.take(j as int).push(
                self.intervals@[j as int],
            ));
            lemma_total_size_push(self.intervals@.take(j as int), self.intervals@[j as int]);
            lemma_rank_of_point_at(self.intervals@, index as int);
        }
        let t = index - self.offsets[j];
        let (u, _) = self.intervals[j];
        u + t
    }

    /// The ordinal of `value` if it is covered, and `None` otherwise.
    pub fn index(&self, value: u32) -> (r: Option<u32>)
        requires
            self.wf(),
        ensures
            match r {
                Some(o) => covers(self.ivs(), value as int) && o == rank_of(
                    self.ivs(),
                    value as int,
                ),
                None => !covers(self.ivs(), value as int),
            },
    {
        let n = self.intervals.len();
        let mut i: usize = 0;
        while i < n
            invariant
                self.wf(),
                0 <= i <= n == self.intervals@.len(),
                forall|j: int| 0 <= j < i ==> (#[trigger] self.intervals@[j]).1 < value,
            decreases n - i,
        {
            let (u, v) = self.intervals[i];
            let offset = self.offsets[i];
            if u == value || (u < value && value <= v) {
                proof {
                    let all = self.intervals@;
                    let rest = all.skip(i as int);
                    let rest2 = all.skip(i + 1);
                    assert(forall|p: int| 0 <= p < rest.len() ==> #[trigger] rest[p] == all[p + i]);
                    assert(rest[0] == all[i as int]);
                    assert(rest.drop_first() =~= rest2);
                    lemma_skip_ordered(all, i as int);
                    lemma_skip_ordered(all, i + 1);
                    lemma_rank_decompose(all, i as int, value as int);
                    if rest2.len() > 0 {
                        lemma_ordered_chain(all, i as int, i + 1);
                        assert(rest2[0] == all[i + 1]);
                    }
                    lemma_rank_zero_below(rest2, value as int);
                    assert(rank_of(rest, value as int) == value - u);
                    assert(self.size == total_size(all));
                    lemma_total_size_split(all, i as int);
                    lemma_rank_bounds(rest, value as int);
                    assert(all[i as int].0 <= value <= all[i as int].1);
                    assert(covers(all, value as int));
                }
                if u == value {
                    return Some(offset);
                }
                return Some(offset + (value - u));
            } else if u > value {
                proof {
                    if covers(self.intervals@, value as int) {
                        let w = choose|w: int|
                            0 <= w < self.intervals@.len() && (#[trigger] self.intervals@[w]).0
                                <= value <= self.intervals@[w].1;
                        if w > i {
                            lemma_ordered_chain(self.intervals@, i as int, w);
                        }
                        assert(false);
                    }
                }
                return None;
            }
            i += 1;
        }
        proof {
            if covers(self.intervals@, value as int) {
                let w = choose|w: int|
                    0 <= w < self.intervals@.len() && (#[trigger] self.intervals@[w]).0 <= value
                        <= self.intervals@[w].1;
                assert(false);
            }
        }
        None
    }

    /// The smallest ordinal whose codepoint is at or above `value`; `size`
    /// if `value` lies beyond every interval.
    pub fn index_above(&self, value: u32) -> (r: u32)
        requires
            self.wf(),
        ensures
            r == rank_of(self.ivs(), value as int),
    {
        let n = self.intervals.len();
        let mut i: usize = 0;
        while i < n
            invariant
                self.wf(),
                0 <= i <= n == self.intervals@.len(),
                forall|j: int| 0 <= j < i ==> (#[trigger] self.intervals@[j]).1 < value,
            decreases n - i,
        {
            let (u, v) = self.intervals[i];
            let offset = self.offsets[i];
            if u >= value || value <= v {
                proof {
                    let all = self.intervals@;
                    let rest = all.skip(i as int);
                    let rest2 = all.skip(i + 1);
                    assert(forall|p: int| 0 <= p < rest.len() ==> #[trigger] rest[p] == all[p + i]);
                    assert(rest[0] == all[i as int]);
                    assert(rest.drop_first() =~= rest2);
                    lemma_skip_ordered(all, i as int);
                    lemma_skip_ordered(all, i + 1);
                    lemma_rank_decompose(all, i as int, value as int);
                    if u > value {
                        lemma_rank_zero_below(rest, value as int);
                        assert(rank_of(rest, value as int) == 0);
                    } else {
                        if rest2.len() > 0 {
                            lemma_ordered_chain(all, i as int, i + 1);
                            assert(rest2[0] == all[i + 1]);
                        }
                        lemma_rank_zero_below(rest2, value as int);
                        assert(rank_of(rest, value as int) == value - u);
                    }
                    assert(self.size == total_size(all));
                    lemma_total_size_split(all, i as int);
                    lemma_rank_bounds(rest, value as int);
                }
                if u >= value {
                    return offset;
                }
                return offset + (value - u);
            }
            i += 1;
        }
        proof {
            lemma_rank_above_all(self.intervals@, value as int);
        }
        self.size
    }
}

} // verus!
