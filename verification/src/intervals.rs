//! Stateless algebra over sorted lists of inclusive codepoint intervals:
//! coalescing union, subtraction, and construction from the characters of a
//! string.

use vstd::prelude::*;

verus! {

use crate::{covers, Interval};

/// Every interval is well-formed: start <= end.
pub open spec fn intervals_valid(ivs: Seq<Interval>) -> bool {
    forall|i: int| 0 <= i < ivs.len() ==> (#[trigger] ivs[i]).0 <= ivs[i].1
}

/// Well-formed, sorted ascending, and pairwise disjoint.
pub open spec fn intervals_ordered(ivs: Seq<Interval>) -> bool {
    &&& intervals_valid(ivs)
    &&& forall|i: int| 0 <= i < ivs.len() - 1 ==> (#[trigger] ivs[i]).1 < ivs[i + 1].0
}

/// Ordered, with at least one uncovered codepoint between neighbours.
/// This is the unique minimal (coalesced) form of a covered set.
pub open spec fn intervals_normalized(ivs: Seq<Interval>) -> bool {
    &&& intervals_valid(ivs)
    &&& forall|i: int| 0 <= i < ivs.len() - 1 ==> (#[trigger] ivs[i]).1 + 1 < ivs[i + 1].0
}

/// In an ordered list, any earlier interval ends before a later one starts.
pub proof fn lemma_ordered_chain(ivs: Seq<Interval>, i: int, j: int)
    requires
        intervals_ordered(ivs),
        0 <= i < j < ivs.len(),
    ensures
        ivs[i].1 < ivs[j].0,
        ivs[i].0 <= ivs[j].0,
    decreases j - i,
{
    if j > i + 1 {
        lemma_ordered_chain(ivs, i, j - 1);
    }
}

/// In a normalized list, there is a gap of at least one codepoint between
/// any earlier interval and any later one.
pub proof fn lemma_normalized_chain(ivs: Seq<Interval>, i: int, j: int)
    requires
        intervals_normalized(ivs),
        0 <= i < j < ivs.len(),
    ensures
        ivs[i].1 + 1 < ivs[j].0,
    decreases j - i,
{
    if j > i + 1 {
        lemma_normalized_chain(ivs, i, j - 1);
    }
}

/// Normalized lists refine ordered lists.
pub proof fn lemma_normalized_is_ordered(ivs: Seq<Interval>)
    requires
        intervals_normalized(ivs),
    ensures
        intervals_ordered(ivs),
{
}

/// Dropping the first interval keeps exactly the codepoints above its end.
pub proof fn lemma_covers_drop_first(ivs: Seq<Interval>, x: int)
    requires
        intervals_ordered(ivs),
        ivs.len() > 0,
    ensures
        covers(ivs.drop_first(), x) <==> covers(ivs, x) && x > ivs[0].1,
{
    let rest = ivs.drop_first();
    if covers(rest, x) {
        let i = choose|i: int| 0 <= i < rest.len() && (#[trigger] rest[i]).0 <= x <= rest[i].1;
        assert(rest[i] == ivs[i + 1]);
        lemma_ordered_chain(ivs, 0, i + 1);
        assert(covers(ivs, x));
    }
    if covers(ivs, x) && x > ivs[0].1 {
        let i = choose|i: int| 0 <= i < ivs.len() && (#[trigger] ivs[i]).0 <= x <= ivs[i].1;
        assert(i != 0);
        assert(rest[i - 1] == ivs[i]);
        assert(covers(rest, x));
    }
}

/// An ordered tail of an ordered list is ordered, and likewise for
/// normalized lists.
pub proof fn lemma_drop_first_wf(ivs: Seq<Interval>)
    requires
        ivs.len() > 0,
    ensures
        intervals_ordered(ivs) ==> intervals_ordered(ivs.drop_first()),
        intervals_normalized(ivs) ==> intervals_normalized(ivs.drop_first()),
{
    let rest = ivs.drop_first();
    assert(forall|i: int| 0 <= i < rest.len() ==> #[trigger] rest[i] == ivs[i + 1]);
}

/// If one side of a coverage-equal pair of normalized lists is non-empty,
/// so is the other, and their first intervals agree.
proof fn lemma_first_equal(a: Seq<Interval>, b: Seq<Interval>)
    requires
        intervals_normalized(a),
        intervals_normalized(b),
        forall|x: int| covers(a, x) <==> covers(b, x),
        a.len() > 0,
    ensures
        b.len() > 0,
        a[0] == b[0],
{
    lemma_normalized_is_ordered(a);
    lemma_normalized_is_ordered(b);
    assert(covers(a, a[0].0 as int));
    assert(covers(b, a[0].0 as int));
    assert(b.len() > 0);
    assert(covers(b, b[0].0 as int));
    assert(covers(a, b[0].0 as int));
    // The least covered codepoint is the first start, on both sides.
    assert(a[0].0 == b[0].0) by {
        let ja = choose|j: int| 0 <= j < b.len() && (#[trigger] b[j]).0 <= a[0].0 <= b[j].1;
        if ja > 0 {
            lemma_ordered_chain(b, 0, ja);
        }
        let jb = choose|j: int| 0 <= j < a.len() && (#[trigger] a[j]).0 <= b[0].0 <= a[j].1;
        if jb > 0 {
            lemma_ordered_chain(a, 0, jb);
        }
    }
    // The first interval ends just before the first uncovered codepoint.
    if a[0].1 < b[0].1 {
        let x = a[0].1 + 1;
        assert(covers(b, x));
        assert(covers(a, x));
        let i = choose|i: int| 0 <= i < a.len() && (#[trigger] a[i]).0 <= x <= a[i].1;
        if i > 0 {
            lemma_normalized_chain(a, 0, i);
        }
        assert(false);
    }
    if b[0].1 < a[0].1 {
        let x = b[0].1 + 1;
        assert(covers(a, x));
        assert(covers(b, x));
        let i = choose|i: int| 0 <= i < b.len() && (#[trigger] b[i]).0 <= x <= b[i].1;
        if i > 0 {
            lemma_normalized_chain(b, 0, i);
        }
        assert(false);
    }
}

/// Sequences with equal heads and equal tails are equal.
proof fn lemma_eq_from_parts(a: Seq<Interval>, b: Seq<Interval>)
    requires
        a.len() > 0,
        b.len() > 0,
        a[0] == b[0],
        a.drop_first() == b.drop_first(),
    ensures
        a == b,
{
    assert(a.drop_first().len() == a.len() - 1);
    assert(b.drop_first().len() == b.len() - 1);
    assert(a.len() == b.len());
    assert forall|i: int| 0 <= i < a.len() implies a[i] == b[i] by {
        if i > 0 {
            assert(a[i] == a.drop_first()[i - 1]);
            assert(b[i] == b.drop_first()[i - 1]);
        }
    }
    assert(a =~= b);
}

/// Two normalized interval lists covering the same codepoints are the same
/// list: the normalized form of a codepoint set is unique.
#[verifier::rlimit(50)]
pub proof fn lemma_normalized_unique(a: Seq<Interval>, b: Seq<Interval>)
    requires
        intervals_normalized(a),
        intervals_normalized(b),
        forall|x: int| covers(a, x) <==> covers(b, x),
    ensures
        a == b,
    decreases a.len(),
{
    if a.len() == 0 {
        if b.len() > 0 {
            lemma_first_equal(b, a);
        }
        assert(a =~= b);
    } else {
        lemma_first_equal(a, b);
        lemma_normalized_is_ordered(a);
        lemma_normalized_is_ordered(b);
        lemma_drop_first_wf(a);
        lemma_drop_first_wf(b);
        assert forall|x: int| covers(a.drop_first(), x) <==> covers(b.drop_first(), x) by {
            lemma_covers_drop_first(a, x);
            lemma_covers_drop_first(b, x);
        }
        lemma_normalized_unique(a.drop_first(), b.drop_first());
        lemma_eq_from_parts(a, b);
    }
}

/// Coverage of a subrange splits at any midpoint.
pub proof fn lemma_covers_split(s: Seq<Interval>, p: int, q: int, r: int, x: int)
    requires
        0 <= p <= q <= r <= s.len(),
    ensures
        covers(s.subrange(p, r), x) <==> covers(s.subrange(p, q), x) || covers(
            s.subrange(q, r),
            x,
        ),
{
    let whole = s.subrange(p, r);
    let left = s.subrange(p, q);
    let right = s.subrange(q, r);
    if covers(whole, x) {
        let i = choose|i: int| 0 <= i < whole.len() && (#[trigger] whole[i]).0 <= x <= whole[i].1;
        if i < q - p {
            assert(left[i] == whole[i]);
            assert(covers(left, x));
        } else {
            assert(right[i - (q - p)] == whole[i]);
            assert(covers(right, x));
        }
    }
    if covers(left, x) {
        let i = choose|i: int| 0 <= i < left.len() && (#[trigger] left[i]).0 <= x <= left[i].1;
        assert(whole[i] == left[i]);
        assert(covers(whole, x));
    }
    if covers(right, x) {
        let i = choose|i: int| 0 <= i < right.len() && (#[trigger] right[i]).0 <= x <= right[i].1;
        assert(whole[i + (q - p)] == right[i]);
        assert(covers(whole, x));
    }
}

/// A single interval is covered by a singleton list exactly on its range.
pub proof fn lemma_covers_singleton(iv: Interval, x: int)
    ensures
        covers(seq![iv], x) <==> iv.0 <= x <= iv.1,
{
    if iv.0 <= x <= iv.1 {
        assert(seq![iv][0] == iv);
    }
}

/// Insert one well-formed interval into a normalized list, coalescing
/// overlapping or adjacent neighbours.
fn insert_interval(acc: &Vec<Interval>, u: u32, v: u32) -> (r: Vec<Interval>)
    requires
        intervals_normalized(acc@),
        u <= v,
    ensures
        intervals_normalized(r@),
        forall|x: int| covers(r@, x) <==> covers(acc@, x) || u <= x <= v,
{
    let n = acc.len();
    let mut r: Vec<Interval> = Vec::new();
    let mut i: usize = 0;
    // Copy the intervals that end more than one codepoint below `u`.
    while i < n && (acc[i].1 as u64) + 1 < (u as u64)
        invariant
            0 <= i <= n == acc@.len(),
            intervals_normalized(acc@),
            u <= v,
            r@ == acc@.subrange(0, i as int),
            forall|k: int| 0 <= k < i ==> (#[trigger] acc@[k]).1 + 1 < u,
        decreases n - i,
    {
        r.push(acc[i]);
        assert(r@ =~= acc@.subrange(0, i + 1));
        i += 1;
    }
    let ghost i0 = i as int;
    assert(i0 < n ==> acc@[i0].1 + 1 >= u);
    // Absorb every interval that overlaps or touches the growing range.
    let mut lo = u;
    let mut hi = v;
    while i < n && (acc[i].0 as u64) <= (hi as u64) + 1
        invariant
            0 <= i0 <= i <= n == acc@.len(),
            intervals_normalized(acc@),
            u <= v,
            lo <= u,
            v <= hi,
            i0 < n ==> acc@[i0].1 + 1 >= u,
            i == i0 ==> lo == u,
            i > i0 ==> lo == u || lo == acc@[i0].0,
            forall|x: int|
                lo <= x <= hi <==> (u <= x <= v || covers(acc@.subrange(i0, i as int), x)),
        decreases n - i,
    {
        let ghost prev = acc@.subrange(i0, i as int);
        let (cu, cv) = acc[i];
        assert forall|x: int|
            covers(acc@.subrange(i0, i + 1), x) <==> covers(prev, x) || cu <= x <= cv by {
            lemma_covers_split(acc@, i0, i as int, i + 1, x);
            assert(acc@.subrange(i as int, i + 1) =~= seq![(cu, cv)]);
            lemma_covers_singleton((cu, cv), x);
        }
        proof {
            if i > i0 {
                lemma_normalized_chain(acc@, i0, i as int);
            }
        }
        let nlo = if cu < lo {
            cu
        } else {
            lo
        };
        let nhi = if cv > hi {
            cv
        } else {
            hi
        };
        assert forall|x: int| #![trigger covers(acc@.subrange(i0, i + 1), x)]
            nlo <= x <= nhi <==> (u <= x <= v || covers(acc@.subrange(i0, i + 1), x)) by {
            assert(covers(acc@.subrange(i0, i + 1), x) <==> covers(prev, x) || cu <= x <= cv);
        }
        lo = nlo;
        hi = nhi;
        i += 1;
    }
    let ghost i1 = i as int;
    assert(i1 < n ==> acc@[i1].0 > hi + 1);
    // Everything after the merged range is kept as it is.
    let ghost r0 = r@;
    r.push((lo, hi));
    assert(r@ == r0.push((lo, hi)));
    while i < n
        invariant
            0 <= i0 <= i1 <= i <= n == acc@.len(),
            intervals_normalized(acc@),
            r@ == acc@.subrange(0, i0).push((lo, hi)) + acc@.subrange(i1, i as int),
        decreases n - i,
    {
        r.push(acc[i]);
        assert(r@ =~= acc@.subrange(0, i0).push((lo, hi)) + acc@.subrange(i1, i + 1));
        i += 1;
    }
    // The result is normalized.
    assert(intervals_normalized(r@)) by {
        let rr = r@;
        assert forall|k: int| 0 <= k < rr.len() implies (#[trigger] rr[k]).0 <= rr[k].1 by {
            if k < i0 {
                assert(rr[k] == acc@[k]);
            } else if k == i0 {
            } else {
                assert(rr[k] == acc@[k - i0 - 1 + i1]);
            }
        }
        assert forall|k: int| 0 <= k < rr.len() - 1 implies (#[trigger] rr[k]).1 + 1 < rr[k
            + 1].0 by {
            if k + 1 < i0 {
                assert(rr[k] == acc@[k]);
                assert(rr[k + 1] == acc@[k + 1]);
            } else if k + 1 == i0 {
                assert(rr[k] == acc@[k]);
                assert(rr[k].1 + 1 < u);
                if i0 < n && i1 > i0 {
                    lemma_normalized_chain(acc@, k, i0);
                }
            } else if k == i0 {
                assert(rr[k] == (lo, hi));
                assert(rr[k + 1] == acc@[i1]);
            } else {
                assert(rr[k] == acc@[k - i0 - 1 + i1]);
                assert(rr[k + 1] == acc@[k - i0 + i1]);
            }
        }
    }
    // The result covers exactly the old codepoints plus the new range.
    assert forall|x: int| covers(r@, x) <==> covers(acc@, x) || u <= x <= v by {
        let rr = r@;
        let head = acc@.subrange(0, i0);
        let tail = acc@.subrange(i1, n as int);
        assert(rr =~= head.push((lo, hi)) + tail);
        assert(head.push((lo, hi)) =~= head + seq![(lo, hi)]);
        assert(rr =~= (head + seq![(lo, hi)]) + tail);
        assert(rr.subrange(0, i0) =~= head);
        assert(rr.subrange(i0, i0 + 1) =~= seq![(lo, hi)]);
        assert(rr.subrange(i0 + 1, rr.len() as int) =~= tail);
        lemma_covers_split(rr, 0, i0, rr.len() as int, x);
        lemma_covers_split(rr, i0, i0 + 1, rr.len() as int, x);
        lemma_covers_singleton((lo, hi), x);
        assert(acc@.subrange(0, n as int) =~= acc@);
        lemma_covers_split(acc@, 0, i0, n as int, x);
        lemma_covers_split(acc@, i0, i1, n as int, x);
    }
    r
}

/// Codepoint `x` is the value of some character of `s`.
pub open spec fn char_in(s: Seq<char>, x: int) -> bool {
    exists|i: int| 0 <= i < s.len() && (#[trigger] s[i]) as int == x
}

/// Coalesce an arbitrary list of well-formed intervals into normalized form.
pub(crate) fn merge_intervals(input: &Vec<Interval>) -> (r: Vec<Interval>)
    requires
        intervals_valid(input@),
    ensures
        intervals_normalized(r@),
        forall|x: int| covers(r@, x) <==> covers(input@, x),
{
    let n = input.len();
    let mut acc: Vec<Interval> = Vec::new();
    let mut k: usize = 0;
    while k < n
        invariant
            0 <= k <= n == input@.len(),
            intervals_valid(input@),
            intervals_normalized(acc@),
            forall|x: int| covers(acc@, x) <==> covers(input@.subrange(0, k as int), x),
        decreases n - k,
    {
        let (u, v) = input[k];
        let acc2 = insert_interval(&acc, u, v);
        assert forall|x: int| #![trigger covers(input@.subrange(0, k + 1), x)]
            covers(acc2@, x) <==> covers(input@.subrange(0, k + 1), x) by {
            lemma_covers_split(input@, 0, k as int, k + 1, x);
            assert(input@.subrange(k as int, k + 1) =~= seq![(u, v)]);
            lemma_covers_singleton((u, v), x);
        }
        acc = acc2;
        k += 1;
    }
    assert(input@.subrange(0, n as int) =~= input@);
    acc
}

/// The minimal ascending disjoint list covering the union of two interval
/// lists, with adjacent runs coalesced. A union with an empty list returns
/// the other list unchanged.
pub fn union_intervals(left: Vec<Interval>, right: Vec<Interval>) -> (r: Vec<Interval>)
    requires
        intervals_valid(left@),
        intervals_valid(right@),
    ensures
        forall|x: int| covers(r@, x) <==> covers(left@, x) || covers(right@, x),
        left@.len() == 0 ==> r@ == right@,
        right@.len() == 0 ==> r@ == left@,
        left@.len() > 0 && right@.len() > 0 ==> intervals_normalized(r@),
{
    if left.len() == 0 {
        assert(forall|x: int| !covers(left@, x));
        right
    } else if right.len() == 0 {
        assert(forall|x: int| !covers(right@, x));
        left
    } else {
        let mut all = left;
        let ghost l0 = all@;
        let nr = right.len();
        let mut j: usize = 0;
        while j < nr
            invariant
                0 <= j <= nr == right@.len(),
                all@ == l0 + right@.subrange(0, j as int),
            decreases nr - j,
        {
            all.push(right[j]);
            assert(all@ =~= l0 + right@.subrange(0, j + 1));
            j += 1;
        }
        assert(all@ == l0 + right@) by {
            assert(right@.subrange(0, nr as int) =~= right@);
        }
        assert(intervals_valid(all@)) by {
            assert forall|i: int| 0 <= i < all@.len() implies (#[trigger] all@[i]).0
                <= all@[i].1 by {
                if i < l0.len() {
                    assert(all@[i] == l0[i]);
                } else {
                    assert(all@[i] == right@[i - l0.len()]);
                }
            }
        }
        let r = merge_intervals(&all);
        assert forall|x: int| covers(r@, x) <==> covers(left@, x) || covers(right@, x) by {
            assert(all@.subrange(0, all@.len() as int) =~= all@);
            lemma_covers_split(all@, 0, l0.len() as int, all@.len() as int, x);
            assert(all@.subrange(0, l0.len() as int) =~= l0);
            assert(all@.subrange(l0.len() as int, all@.len() as int) =~= right@);
            assert(covers(r@, x) <==> covers(all@, x));
        }
        r
    }
}

/// Map each character of `string` to a singleton interval and coalesce runs
/// of consecutive codepoints: the normalized interval form of the string's
/// character set. An empty string yields an empty list.
pub fn intervals(string: &str) -> (r: Vec<Interval>)
    ensures
        intervals_normalized(r@),
        forall|x: int| covers(r@, x) <==> char_in(string@, x),
        string@.len() == 0 ==> r@ == Seq::<Interval>::empty(),
{
    let n = string.unicode_len();
    let mut acc: Vec<Interval> = Vec::new();
    let mut k: usize = 0;
    while k < n
        invariant
            0 <= k <= n == string@.len(),
            intervals_normalized(acc@),
            n == 0 ==> acc@.len() == 0,
            forall|x: int| covers(acc@, x) <==> char_in(string@.subrange(0, k as int), x),
        decreases n - k,
    {
        let c = string.get_char(k);
        let cp = c as u32;
        let acc2 = insert_interval(&acc, cp, cp);
        assert forall|x: int| #![trigger char_in(string@.subrange(0, k + 1), x)]
            covers(acc2@, x) <==> char_in(string@.subrange(0, k + 1), x) by {
            let t1 = string@.subrange(0, k + 1);
            let t0 = string@.subrange(0, k as int);
            if char_in(t1, x) {
                let i = choose|i: int| 0 <= i < t1.len() && (#[trigger] t1[i]) as int == x;
                if i < k {
                    assert(t0[i] == t1[i]);
                    assert(char_in(t0, x));
                } else {
                    assert(t1[k as int] == string@[k as int]);
                }
            }
            if char_in(t0, x) {
                let i = choose|i: int| 0 <= i < t0.len() && (#[trigger] t0[i]) as int == x;
                assert(t1[i] == t0[i]);
                assert(char_in(t1, x));
            }
            if x == cp {
                assert(t1[k as int] == c);
                assert(char_in(t1, x));
            }
        }
        acc = acc2;
        k += 1;
    }
    assert(string@.subrange(0, n as int) =~= string@);
    if n == 0 {
        assert(acc@ =~= Seq::<Interval>::empty());
    }
    acc
}

/// The portions of each `left` interval not covered by any `right` interval.
/// Both inputs must be sorted and disjoint. Subtracting an empty list
/// returns `left` unchanged.
#[verifier::rlimit(100)]
pub fn subtract_intervals(left: Vec<Interval>, right: &[Interval]) -> (r: Vec<Interval>)
    requires
        intervals_ordered(left@),
        intervals_ordered(right@),
    ensures
        intervals_ordered(r@),
        intervals_normalized(left@) ==> intervals_normalized(r@),
        forall|x: int| covers(r@, x) <==> covers(left@, x) && !covers(right@, x),
        right@.len() == 0 ==> r@ == left@,
{
    let nr = right.len();
    if nr == 0 {
        assert(forall|x: int| !covers(right@, x));
        return left;
    }
    let nl = left.len();
    let mut out: Vec<Interval> = Vec::new();
    let mut j: usize = 0;
    let mut k: usize = 0;
    while k < nl
        invariant
            0 <= k <= nl == left@.len(),
            0 <= j <= nr == right@.len(),
            intervals_ordered(left@),
            intervals_ordered(right@),
            intervals_ordered(out@),
            intervals_normalized(left@) ==> intervals_normalized(out@),
            forall|x: int|
                covers(out@, x) <==> covers(left@.subrange(0, k as int), x) && !covers(right@, x),
            k < nl ==> forall|p: int| 0 <= p < j ==> (#[trigger] right@[p]).1 < left@[k as int].0,
            out@.len() > 0 && k < nl ==> out@.last().1 < left@[k as int].0,
            intervals_normalized(left@) && out@.len() > 0 && k < nl ==> out@.last().1 + 1
                < left@[k as int].0,
        decreases nl - k,
    {
        let (ll, lr) = left[k];
        let mut lo = ll;
        let mut done = false;
        let mut consumed = false;
        while j < nr && !done
            invariant
                0 <= k < nl == left@.len(),
                0 <= j <= nr == right@.len(),
                intervals_ordered(left@),
                intervals_ordered(right@),
                intervals_ordered(out@),
                intervals_normalized(left@) ==> intervals_normalized(out@),
                (ll, lr) == left@[k as int],
                ll <= lo <= lr,
                forall|x: int|
                    covers(out@, x) <==> (covers(left@.subrange(0, k as int), x) || (ll <= x
                        < lo)) && !covers(right@, x),
                forall|p: int| 0 <= p < j ==> (#[trigger] right@[p]).1 < lo,
                out@.len() > 0 ==> out@.last().1 < lo,
                intervals_normalized(left@) && out@.len() > 0 && !consumed ==> out@.last().1 + 1
                    < lo,
                consumed ==> done,
                consumed ==> j < nr && right@[j as int].0 <= lo && lr <= right@[j as int].1,
                done && !consumed ==> j == nr || (j < nr && right@[j as int].0 > lr),
            decreases nr - j, 1int + if done { 0int } else { 1int },
        {
            let (rl, rr) = right[j];
            if rr < lo {
                j += 1;
            } else if rl > lr {
                done = true;
            } else {
                // right[j] overlaps [lo, lr]
                if rl > lo {
                    // keep the uncovered prefix [lo, rl - 1]
                    let ghost out0 = out@;
                    out.push((lo, rl - 1));
                    assert forall|x: int|
                        covers(out@, x) <==> (covers(left@.subrange(0, k as int), x) || (ll <= x
                            < rl)) && !covers(right@, x) by {
                        assert(out@ =~= out0.push((lo, (rl - 1) as u32)));
                        assert(out@.subrange(0, out0.len() as int) =~= out0);
                        assert(out@.subrange(out0.len() as int, out@.len() as int) =~= seq![
                            (lo, (rl - 1) as u32),
                        ]);
                        lemma_covers_split(out@, 0, out0.len() as int, out@.len() as int, x);
                        lemma_covers_singleton((lo, (rl - 1) as u32), x);
                        if lo <= x < rl {
                            assert(!covers(right@, x)) by {
                                if covers(right@, x) {
                                    let p = choose|p: int|
                                        0 <= p < right@.len() && (#[trigger] right@[p]).0 <= x
                                            <= right@[p].1;
                                    if p < j {
                                    } else if p > j {
                                        lemma_ordered_chain(right@, j as int, p);
                                    }
                                    assert(false);
                                }
                            }
                        }
                    }
                }
                if rl > lo {
                    lo = rl;
                }
                if rr >= lr {
                    consumed = true;
                    done = true;
                } else {
                    let ghost lo_old = lo as int;
                    lo = rr + 1;
                    j += 1;
                    assert forall|x: int|
                        covers(out@, x) <==> (covers(left@.subrange(0, k as int), x) || (ll <= x
                            < lo)) && !covers(right@, x) by {
                        if lo_old <= x < lo {
                            assert(right@[j - 1].0 <= x <= right@[j - 1].1);
                            assert(covers(right@, x));
                        }
                    }
                }
            }
        }
        let ghost out_before = out@;
        if !consumed {
            // [lo, lr] is untouched by `right`
            let ghost out0 = out@;
            out.push((lo, lr));
            assert forall|x: int|
                covers(out@, x) <==> (covers(left@.subrange(0, k as int), x) || (ll <= x <= lr))
                    && !covers(right@, x) by {
                assert(out@ =~= out0.push((lo, lr)));
                assert(out@.subrange(0, out0.len() as int) =~= out0);
                assert(out@.subrange(out0.len() as int, out@.len() as int) =~= seq![(lo, lr)]);
                lemma_covers_split(out@, 0, out0.len() as int, out@.len() as int, x);
                lemma_covers_singleton((lo, lr), x);
                if lo <= x <= lr {
                    assert(!covers(right@, x)) by {
                        if covers(right@, x) {
                            let p = choose|p: int|
                                0 <= p < right@.len() && (#[trigger] right@[p]).0 <= x
                                    <= right@[p].1;
                            if p < j {
                            } else if j < nr {
                                if p > j {
                                    lemma_ordered_chain(right@, j as int, p);
                                }
                            }
                            assert(false);
                        }
                    }
                }
            }
        } else {
            // [lo, lr] lies inside right[j]: nothing more of left[k] survives
            assert forall|x: int|
                covers(out@, x) <==> (covers(left@.subrange(0, k as int), x) || (ll <= x <= lr))
                    && !covers(right@, x) by {
                if ll <= x <= lr && !covers(right@, x) {
                    if lo <= x {
                        assert(right@[j as int].0 <= x <= right@[j as int].1);
                        assert(false);
                    }
                }
            }
        }
        assert forall|x: int|
            covers(out@, x) <==> covers(left@.subrange(0, k + 1), x) && !covers(right@, x) by {
            lemma_covers_split(left@, 0, k as int, k + 1, x);
            assert(left@.subrange(k as int, k + 1) =~= seq![(ll, lr)]);
            lemma_covers_singleton((ll, lr), x);
        }
        proof {
            if k + 1 < nl {
                assert(left@[k as int].1 < left@[k + 1].0);
            }
        }
        k += 1;
    }
    assert(left@.subrange(0, nl as int) =~= left@);
    out
}

/// The interval form of a string depends only on its set of characters:
/// two strings with the same characters, in any order and with any
/// multiplicity, give exactly the same normalized interval list.
pub proof fn lemma_string_intervals_set_insensitive(
    s1: Seq<char>,
    s2: Seq<char>,
    r1: Seq<Interval>,
    r2: Seq<Interval>,
)
    requires
        intervals_normalized(r1),
        intervals_normalized(r2),
        forall|x: int| covers(r1, x) <==> char_in(s1, x),
        forall|x: int| covers(r2, x) <==> char_in(s2, x),
        forall|c: char| s1.contains(c) <==> s2.contains(c),
    ensures
        r1 == r2,
{
    assert forall|x: int| covers(r1, x) <==> covers(r2, x) by {
        if char_in(s1, x) {
            let i = choose|i: int| 0 <= i < s1.len() && (#[trigger] s1[i]) as int == x;
            assert(s1.contains(s1[i]));
            assert(s2.contains(s1[i]));
            let j = choose|j: int| 0 <= j < s2.len() && s2[j] == s1[i];
            assert(s2[j] as int == x);
            assert(char_in(s2, x));
        }
        if char_in(s2, x) {
            let i = choose|i: int| 0 <= i < s2.len() && (#[trigger] s2[i]) as int == x;
            assert(s2.contains(s2[i]));
            assert(s1.contains(s2[i]));
            let j = choose|j: int| 0 <= j < s1.len() && s1[j] == s2[i];
            assert(s1[j] as int == x);
            assert(char_in(s1, x));
        }
    }
    lemma_normalized_unique(r1, r2);
}

} // verus!
