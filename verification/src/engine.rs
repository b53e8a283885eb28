//! The per-Unicode-version query engine: the raw category table, the
//! materialized category-to-intervals mapping, the canonical category
//! order, major-class expansion, and the bounded top-level query with
//! memoization of union results and full query results.

use vstd::prelude::*;

verus! {

use crate::{covers, Error, Interval, MAX_CODEPOINT};
use crate::categories::{
    category_index, category_major_letter, spec_category_from_index, spec_category_index,
    spec_category_name, spec_category_of, spec_is_major_letter, spec_token_valid, CategoryBitMap,
    UnicodeCategory,
};
use crate::names::{contains_name, lex_lt, sorted_strict_names, str_eq, str_lt, views_of};
use crate::intervals::{
    char_in, intervals, intervals_normalized, intervals_valid, subtract_intervals,
    union_intervals,
};

/// One table row: a category and its intervals.
pub type TableEntry = (UnicodeCategory, Vec<Interval>);

/// The raw per-version table: one row per category.
pub type Table = Vec<TableEntry>;

/// The Unicode versions the engine distinguishes.
#[derive(Debug, Copy, Clone, Eq, PartialEq, Structural)]
pub enum UnicodeVersion {
    /// Unicode 9.0
    V9,
    /// Unicode 10.0
    V10,
    /// Unicode 11.0
    V11,
    /// Unicode 12.0
    V12,
    /// Unicode 12.1
    V12_1,
    /// Unicode 13.0
    V13,
}

/// The intervals of the first table row for `c`, or empty if none.
pub open spec fn spec_table_lookup(t: Seq<TableEntry>, c: UnicodeCategory) -> Seq<Interval>
    decreases t.len(),
{
    if t.len() == 0 {
        Seq::empty()
    } else if t[0].0 == c {
        t[0].1@
    } else {
        spec_table_lookup(t.drop_first(), c)
    }
}

/// The table rows name pairwise different categories.
pub open spec fn spec_table_distinct(t: Seq<TableEntry>) -> bool {
    forall|i: int, j: int| 0 <= i < j < t.len() ==> (#[trigger] t[i]).0 != (#[trigger] t[j]).0
}

/// Category `c` has a table row.
pub open spec fn spec_table_has(t: Seq<TableEntry>, c: UnicodeCategory) -> bool {
    exists|i: int| 0 <= i < t.len() && (#[trigger] t[i]).0 == c
}

/// Every category has a table row.
pub open spec fn spec_table_complete(t: Seq<TableEntry>) -> bool {
    forall|c: UnicodeCategory| #[trigger] spec_table_has(t, c)
}

/// Every row holds well-formed intervals within the codepoint range.
pub open spec fn spec_table_entries_wf(t: Seq<TableEntry>) -> bool {
    forall|i: int, k: int|
        0 <= i < t.len() && 0 <= k < t[i].1@.len() ==> (#[trigger] t[i].1@[k]).0 <= t[i].1@[k].1
            && t[i].1@[k].1 <= MAX_CODEPOINT
}

/// Some row covers codepoint `x`.
pub open spec fn spec_table_covers_point(t: Seq<TableEntry>, x: int) -> bool {
    exists|i: int| 0 <= i < t.len() && covers((#[trigger] t[i]).1@, x)
}

/// The rows together cover every codepoint.
pub open spec fn spec_table_covers_all(t: Seq<TableEntry>) -> bool {
    forall|x: int| 0 <= x <= MAX_CODEPOINT ==> #[trigger] spec_table_covers_point(t, x)
}

/// The assumptions the engine makes of its raw table: one well-formed row
/// per category, and full coverage of the codepoint space.
pub open spec fn spec_table_wf(t: Seq<TableEntry>) -> bool {
    &&& t.len() == 30
    &&& spec_table_distinct(t)
    &&& spec_table_complete(t)
    &&& spec_table_entries_wf(t)
    &&& spec_table_covers_all(t)
}

/// In a distinct table, the lookup of a row's category is that row's list.
pub proof fn lemma_table_lookup_at(t: Seq<TableEntry>, i: int)
    requires
        spec_table_distinct(t),
        0 <= i < t.len(),
    ensures
        spec_table_lookup(t, t[i].0) == t[i].1@,
    decreases i,
{
    if i > 0 {
        let rest = t.drop_first();
        assert(forall|p: int| 0 <= p < rest.len() ==> #[trigger] rest[p] == t[p + 1]);
        assert(spec_table_distinct(rest)) by {
            assert(forall|p: int, q: int|
                0 <= p < q < rest.len() ==> rest[p] == t[p + 1] && rest[q] == t[q + 1]);
        }
        lemma_table_lookup_at(rest, i - 1);
    }
}

/// A copy of an interval list.
pub fn copy_intervals(v: &Vec<Interval>) -> (r: Vec<Interval>)
    ensures
        r@ == v@,
{
    let mut out: Vec<Interval> = Vec::new();
    let mut i: usize = 0;
    while i < v.len()
        invariant
            0 <= i <= v@.len(),
            out@ == v@.subrange(0, i as int),
        decreases v@.len() - i,
    {
        out.push(v[i]);
        assert(out@ =~= v@.subrange(0, i + 1));
        i += 1;
    }
    assert(out@ =~= v@);
    out
}

/// Element-wise equality of two interval lists.
fn intervals_eq(a: &Vec<Interval>, b: &Vec<Interval>) -> (r: bool)
    ensures
        r <==> a@ == b@,
{
    if a.len() != b.len() {
        return false;
    }
    let mut i: usize = 0;
    while i < a.len()
        invariant
            0 <= i <= a@.len() == b@.len(),
            forall|j: int| 0 <= j < i ==> a@[j] == b@[j],
        decreases a@.len() - i,
    {
        let (au, av) = a[i];
        let (bu, bv) = b[i];
        if au != bu || av != bv {
            return false;
        }
        i += 1;
    }
    assert(a@ =~= b@);
    true
}

/// The number of intervals the table assigns to `c`, as executable code.
fn table_lookup_len(table: &Table, c: UnicodeCategory) -> (r: usize)
    ensures
        r == spec_table_lookup(table@, c).len(),
{
    let n = table.len();
    let mut i: usize = 0;
    proof {
        assert(table@.skip(0) =~= table@);
    }
    while i < n
        invariant
            0 <= i <= n == table@.len(),
            spec_table_lookup(table@, c) == spec_table_lookup(table@.skip(i as int), c),
        decreases n - i,
    {
        proof {
            let skipped = table@.skip(i as int);
            assert(skipped[0] == table@[i as int]);
            assert(skipped.drop_first() =~= table@.skip(i + 1));
        }
        if matches!(table[i].0, cat if category_index(cat) == category_index(c)) {
            proof {
                crate::categories::lemma_category_index_injective(table@[i as int].0, c);
            }
            let r = table[i].1.len();
            return r;
        }
        assert(table@[i as int].0 != c) by {
            if table@[i as int].0 == c {
                assert(spec_category_index(table@[i as int].0) == spec_category_index(c));
            }
        }
        i += 1;
    }
    assert(table@.skip(n as int) =~= Seq::<TableEntry>::empty());
    0
}


/// Insert `c` at position `p`, shifting later elements one place right.
fn insert_at(v: &mut Vec<UnicodeCategory>, p: usize, c: UnicodeCategory)
    requires
        p <= old(v)@.len(),
    ensures
        final(v)@.len() == old(v)@.len() + 1,
        forall|j: int| 0 <= j < p ==> #[trigger] final(v)@[j] == old(v)@[j],
        final(v)@[p as int] == c,
        forall|j: int| p < j < final(v)@.len() ==> #[trigger] final(v)@[j] == old(v)@[j - 1],
{
    let n = v.len();
    v.push(c);
    let mut k: usize = n;
    while k > p
        invariant
            p <= k <= n,
            v@.len() == old(v)@.len() + 1 == n + 1,
            forall|j: int| 0 <= j < k ==> #[trigger] v@[j] == old(v)@[j],
            forall|j: int| k < j < v@.len() ==> #[trigger] v@[j] == old(v)@[j - 1],
        decreases k,
    {
        let prev = v[k - 1];
        v[k] = prev;
        k -= 1;
    }
    v[p] = c;
}


/// Materialize the table: entry `i` holds the normalized intervals of the
/// category with numeric assignment `i`.
pub fn make_charmap(table: &Table) -> (r: Vec<Vec<Interval>>)
    requires
        spec_table_wf(table@),
    ensures
        r@.len() == 30,
        forall|p: int| 0 <= p < 30 ==> intervals_normalized((#[trigger] r@[p])@),
        forall|p: int, x: int|
            #![trigger covers(r@[p]@, x)]
            0 <= p < 30 ==> (covers(r@[p]@, x) <==> covers(
                spec_table_lookup(table@, spec_category_from_index(p)),
                x,
            )),
        forall|p: int, j: int|
            0 <= p < 30 && 0 <= j < r@[p]@.len() ==> (#[trigger] r@[p]@[j]).1 <= MAX_CODEPOINT,
{
    let mut charmap: Vec<Vec<Interval>> = Vec::new();
    let mut k: u32 = 0;
    while k < 30
        invariant
            0 <= k <= 30,
            spec_table_wf(table@),
            charmap@.len() == k,
            forall|p: int| 0 <= p < k ==> intervals_normalized((#[trigger] charmap@[p])@),
            forall|p: int, x: int|
                #![trigger covers(charmap@[p]@, x)]
                0 <= p < k ==> (covers(charmap@[p]@, x) <==> covers(
                    spec_table_lookup(table@, spec_category_from_index(p)),
                    x,
                )),
            forall|p: int, j: int|
                0 <= p < k && 0 <= j < charmap@[p]@.len() ==> (#[trigger] charmap@[p]@[j]).1
                    <= MAX_CODEPOINT,
        decreases 30 - k,
    {
        let c = crate::categories::category_from_index(k);
        let raw = table_find(table, c);
        let norm = crate::intervals::merge_intervals(raw);
        proof {
            crate::categories::lemma_category_index_roundtrip();
            assert forall|j: int| 0 <= j < norm@.len() implies (#[trigger] norm@[j]).1
                <= MAX_CODEPOINT by {
                assert(norm@[j].0 <= norm@[j].1);
                assert(covers(norm@, norm@[j].1 as int));
                assert(covers(raw@, norm@[j].1 as int));
                let w = choose|w: int|
                    0 <= w < raw@.len() && (#[trigger] raw@[w]).0 <= norm@[j].1 <= raw@[w].1;
                assert(raw@[w].1 <= MAX_CODEPOINT);
            }
        }
        charmap.push(norm);
        k += 1;
    }
    charmap
}

/// The canonical category order for a table: the 30 categories sorted
/// ascending by interval-list length, except that `Cc` and `Cs` always
/// come last, in that order.
pub fn make_categories(table: &Table) -> (r: Vec<UnicodeCategory>)
    requires
        spec_table_wf(table@),
    ensures
        r@.len() == 30,
        forall|c: UnicodeCategory| r@.contains(c),
        forall|p: int, q: int| 0 <= p < q < 30 ==> r@[p] != r@[q],
        r@[28] == UnicodeCategory::Cc,
        r@[29] == UnicodeCategory::Cs,
        forall|p: int, q: int|
            0 <= p < q < 28 ==> spec_table_lookup(table@, r@[p]).len() <= spec_table_lookup(
                table@,
                r@[q],
            ).len(),
    {
    let n = table.len();
    let mut out: Vec<UnicodeCategory> = Vec::new();
    let mut i: usize = 0;
    while i < n
        invariant
            0 <= i <= n == table@.len(),
            spec_table_wf(table@),
            // every non-control processed row's category is present
            forall|j: int|
                0 <= j < i && (#[trigger] table@[j]).0 != UnicodeCategory::Cc && table@[j].0
                    != UnicodeCategory::Cs ==> out@.contains(table@[j].0),
            // everything present comes from a processed row
            forall|p: int|
                0 <= p < out@.len() ==> (exists|j: int|
                    0 <= j < i && (#[trigger] table@[j]).0 == out@[p]) && out@[p]
                    != UnicodeCategory::Cc && out@[p] != UnicodeCategory::Cs,
            // no duplicates
            forall|p: int, q: int| 0 <= p < q < out@.len() ==> out@[p] != out@[q],
            // sorted by list length
            forall|p: int, q: int|
                0 <= p < q < out@.len() ==> spec_table_lookup(table@, out@[p]).len()
                    <= spec_table_lookup(table@, out@[q]).len(),
            out@.len() + count_cat(table@.take(i as int), UnicodeCategory::Cc) + count_cat(
                table@.take(i as int),
                UnicodeCategory::Cs,
            ) == i,
        decreases n - i,
    {
        let c = table[i].0;
        proof {
            lemma_count_push(table@.take(i as int), table@[i as int], UnicodeCategory::Cc);
            lemma_count_push(table@.take(i as int), table@[i as int], UnicodeCategory::Cs);
            assert(table@.take(i + 1) =~= table@.take(i as int).push(table@[i as int]));
        }
        let is_control = match c {
            UnicodeCategory::Cc | UnicodeCategory::Cs => true,
            _ => false,
        };
        if !is_control {
            let len_c = table[i].1.len();
            proof {
                lemma_table_lookup_at(table@, i as int);
            }
            let mut p: usize = 0;
            while p < out.len() && table_lookup_len(table, out[p]) <= len_c
                invariant
                    0 <= p <= out@.len(),
                    len_c == spec_table_lookup(table@, c).len(),
                    forall|j: int|
                        0 <= j < p ==> spec_table_lookup(table@, out@[j]).len() <= len_c,
                decreases out@.len() - p,
            {
                p += 1;
            }
            let ghost out0 = out@;
            let ghost pp = p as int;
            insert_at(&mut out, p, c);
            proof {
                // the new element differs from every old one
                assert forall|j: int| 0 <= j < out0.len() implies out0[j] != c by {
                    let w = choose|w: int| 0 <= w < i && (#[trigger] table@[w]).0 == out0[j];
                }
                // membership is preserved and extended by the new element
                assert(out@[pp] == c);
                assert(out@.contains(c));
                assert forall|d: UnicodeCategory| out0.contains(d) implies out@.contains(d) by {
                    let k0 = choose|k0: int| 0 <= k0 < out0.len() && out0[k0] == d;
                    if k0 < pp {
                        assert(out@[k0] == d);
                    } else {
                        assert(out@[k0 + 1] == d);
                    }
                }
                // every element still comes from a processed row
                assert forall|q: int| 0 <= q < out@.len() implies (exists|j: int|
                    0 <= j < i + 1 && (#[trigger] table@[j]).0 == out@[q]) && out@[q]
                    != UnicodeCategory::Cc && out@[q] != UnicodeCategory::Cs by {
                    if q < pp {
                        assert(out@[q] == out0[q]);
                        let w = choose|w: int| 0 <= w < i && (#[trigger] table@[w]).0 == out0[q];
                        assert(table@[w].0 == out@[q]);
                    } else if q == pp {
                        assert(table@[i as int].0 == out@[q]);
                    } else {
                        assert(out@[q] == out0[q - 1]);
                        let w = choose|w: int|
                            0 <= w < i && (#[trigger] table@[w]).0 == out0[q - 1];
                        assert(table@[w].0 == out@[q]);
                    }
                }
                // still duplicate-free
                assert forall|a: int, b: int| 0 <= a < b < out@.len() implies out@[a]
                    != out@[b] by {
                    if a < pp && b == pp {
                        assert(out@[a] == out0[a]);
                    } else if a == pp && b > pp {
                        assert(out@[b] == out0[b - 1]);
                    } else if a < pp && b > pp {
                        assert(out@[a] == out0[a] && out@[b] == out0[b - 1]);
                    } else if a < pp && b < pp {
                        assert(out@[a] == out0[a] && out@[b] == out0[b]);
                    } else {
                        assert(out@[a] == out0[a - 1] && out@[b] == out0[b - 1]);
                    }
                }
                // still sorted by interval-list length
                assert forall|a: int, b: int| 0 <= a < b < out@.len() implies spec_table_lookup(
                    table@,
                    out@[a],
                ).len() <= spec_table_lookup(table@, out@[b]).len() by {
                    if b < pp {
                        assert(out@[a] == out0[a] && out@[b] == out0[b]);
                    } else if b == pp {
                        assert(out@[a] == out0[a]);
                        assert(spec_table_lookup(table@, out0[a]).len() <= len_c);
                    } else {
                        assert(out@[b] == out0[b - 1]);
                        assert(pp <= b - 1 < out0.len());
                        assert(spec_table_lookup(table@, out0[pp]).len() <= spec_table_lookup(
                            table@,
                            out0[b - 1],
                        ).len() || pp == b - 1);
                        if a < pp {
                            assert(out@[a] == out0[a]);
                            assert(spec_table_lookup(table@, out0[a]).len() <= len_c);
                        } else if a == pp {
                            assert(len_c < spec_table_lookup(table@, out0[pp]).len());
                        } else {
                            assert(out@[a] == out0[a - 1]);
                        }
                    }
                }
            }
        }
        i += 1;
    }
    proof {
        // exactly the 28 non-control categories were collected
        assert forall|c: UnicodeCategory|
            c != UnicodeCategory::Cc && c != UnicodeCategory::Cs implies out@.contains(c) by {
            assert(spec_table_has(table@, c));
            let w = choose|w: int| 0 <= w < table@.len() && (#[trigger] table@[w]).0 == c;
            assert(out@.contains(table@[w].0));
        }
    }
    proof {
        assert(table@.take(n as int) =~= table@);
        lemma_count_le_one(table@, UnicodeCategory::Cc);
        lemma_count_le_one(table@, UnicodeCategory::Cs);
        assert(spec_table_has(table@, UnicodeCategory::Cc));
        assert(spec_table_has(table@, UnicodeCategory::Cs));
        lemma_count_ge_one(table@, UnicodeCategory::Cc);
        lemma_count_ge_one(table@, UnicodeCategory::Cs);
        assert(out@.len() == 28);
    }
    let ghost out28 = out@;
    out.push(UnicodeCategory::Cc);
    out.push(UnicodeCategory::Cs);
    proof {
        assert(out@.len() == 30);
        assert(forall|j: int| 0 <= j < 28 ==> out@[j] == out28[j]);
        assert(out@[28] == UnicodeCategory::Cc);
        assert(out@[29] == UnicodeCategory::Cs);
        assert forall|c: UnicodeCategory| out@.contains(c) by {
            if c == UnicodeCategory::Cc {
                assert(out@[28] == c);
            } else if c == UnicodeCategory::Cs {
                assert(out@[29] == c);
            } else {
                assert(out28.contains(c));
                let w = choose|w: int| 0 <= w < out28.len() && out28[w] == c;
                assert(out@[w] == c);
            }
        }
        assert forall|p: int, q: int| 0 <= p < q < 30 implies out@[p] != out@[q] by {
            if q < 28 {
                assert(out@[p] == out28[p] && out@[q] == out28[q]);
            } else if p < 28 {
                assert(out@[p] == out28[p]);
                assert(out28[p] != UnicodeCategory::Cc && out28[p] != UnicodeCategory::Cs);
            }
        }
        assert forall|p: int, q: int| 0 <= p < q < 28 implies spec_table_lookup(
            table@,
            out@[p],
        ).len() <= spec_table_lookup(table@, out@[q]).len() by {
            assert(out@[p] == out28[p] && out@[q] == out28[q]);
        }
    }
    out
}

/// The number of rows naming category `c`.
pub open spec fn count_cat(t: Seq<TableEntry>, c: UnicodeCategory) -> int
    decreases t.len(),
{
    if t.len() == 0 {
        0
    } else {
        (if t[0].0 == c {
            1int
        } else {
            0int
        }) + count_cat(t.drop_first(), c)
    }
}

/// Appending one row adds one to the count of its own category.
proof fn lemma_count_push(t: Seq<TableEntry>, e: TableEntry, c: UnicodeCategory)
    ensures
        count_cat(t.push(e), c) == count_cat(t, c) + if e.0 == c {
            1int
        } else {
            0int
        },
    decreases t.len(),
{
    if t.len() == 0 {
        assert(t.push(e)[0] == e);
        assert(t.push(e).drop_first() =~= Seq::<TableEntry>::empty());
        assert(count_cat(t.push(e).drop_first(), c) == 0);
        assert(count_cat(t, c) == 0);
    } else {
        assert(t.push(e).drop_first() =~= t.drop_first().push(e));
        assert(t.push(e)[0] == t[0]);
        lemma_count_push(t.drop_first(), e, c);
        assert(count_cat(t.push(e), c) == (if t[0].0 == c {
            1int
        } else {
            0int
        }) + count_cat(t.push(e).drop_first(), c));
    }
}

/// A category missing from every row has count zero.
proof fn lemma_count_absent(t: Seq<TableEntry>, c: UnicodeCategory)
    requires
        forall|i: int| 0 <= i < t.len() ==> (#[trigger] t[i]).0 != c,
    ensures
        count_cat(t, c) == 0,
    decreases t.len(),
{
    if t.len() > 0 {
        assert(forall|i: int|
            0 <= i < t.drop_first().len() ==> #[trigger] t.drop_first()[i] == t[i + 1]);
        lemma_count_absent(t.drop_first(), c);
    }
}

/// In a distinct table no category is named twice.
proof fn lemma_count_le_one(t: Seq<TableEntry>, c: UnicodeCategory)
    requires
        spec_table_distinct(t),
    ensures
        count_cat(t, c) <= 1,
    decreases t.len(),
{
    if t.len() > 0 {
        let rest = t.drop_first();
        assert(forall|i: int| 0 <= i < rest.len() ==> #[trigger] rest[i] == t[i + 1]);
        if t[0].0 == c {
            assert(forall|i: int| 0 <= i < rest.len() ==> (#[trigger] rest[i]).0 != c);
            lemma_count_absent(rest, c);
        } else {
            assert(spec_table_distinct(rest));
            lemma_count_le_one(rest, c);
        }
    }
}

/// A category named by some row has a positive count.
proof fn lemma_count_ge_one(t: Seq<TableEntry>, c: UnicodeCategory)
    requires
        exists|i: int| 0 <= i < t.len() && (#[trigger] t[i]).0 == c,
    ensures
        count_cat(t, c) >= 1,
    decreases t.len(),
{
    let w = choose|i: int| 0 <= i < t.len() && (#[trigger] t[i]).0 == c;
    let rest = t.drop_first();
    assert(forall|i: int| 0 <= i < rest.len() ==> #[trigger] rest[i] == t[i + 1]);
    if t[0].0 != c {
        assert(rest[w - 1].0 == c);
        lemma_count_ge_one(rest, c);
    } else {
        lemma_count_nonneg(rest, c);
    }
}

/// Counts are never negative.
proof fn lemma_count_nonneg(t: Seq<TableEntry>, c: UnicodeCategory)
    ensures
        count_cat(t, c) >= 0,
    decreases t.len(),
{
    if t.len() > 0 {
        lemma_count_nonneg(t.drop_first(), c);
    }
}

/// The key under which a full query result is memoized.
struct QueryCacheKey {
    mask: CategoryBitMap,
    min_codepoint: u32,
    max_codepoint: u32,
    include_intervals: Vec<Interval>,
    exclude_intervals: Vec<Interval>,
}

/// A per-version query engine: it owns the raw table, the materialized
/// category-to-intervals mapping, the canonical category order, and the
/// two memoization caches.
pub struct CategoryQueryEngine {
    version: UnicodeVersion,
    table: Table,
    charmap: Vec<Vec<Interval>>,
    categories_order: Vec<UnicodeCategory>,
    categories_labels: Vec<&'static str>,
    union_cache: Vec<(CategoryBitMap, Vec<Interval>)>,
    query_cache: Vec<(QueryCacheKey, Vec<Interval>)>,
}

impl CategoryQueryEngine {
    /// The engine's Unicode version.
    pub closed spec fn spec_version(self) -> UnicodeVersion {
        self.version
    }

    /// The raw table rows.
    pub closed spec fn table_seq(self) -> Seq<TableEntry> {
        self.table@
    }

    /// The materialized intervals of one category.
    pub closed spec fn cat_ivs(self, c: UnicodeCategory) -> Seq<Interval> {
        self.charmap@[spec_category_index(c) as int]@
    }

    /// The canonical category order.
    pub closed spec fn cats_order(self) -> Seq<UnicodeCategory> {
        self.categories_order@
    }

    /// The canonical category order, as two-letter labels.
    pub closed spec fn labels_seq(self) -> Seq<&'static str> {
        self.categories_labels@
    }

    /// Codepoint `x` belongs to some category in the member set `m`.
    pub open spec fn mask_covers(self, m: CategoryBitMap, x: int) -> bool {
        exists|c: UnicodeCategory| m.has(c) && covers(#[trigger] self.cat_ivs(c), x)
    }

    /// Codepoint `x` belongs to at least one category.
    pub open spec fn covers_some_cat(self, x: int) -> bool {
        exists|c: UnicodeCategory| covers(#[trigger] self.cat_ivs(c), x)
    }

    /// The coverage a memoized query result must have.
    spec fn qkey_covers(self, k: QueryCacheKey, x: int) -> bool {
        ((self.mask_covers(k.mask, x) && k.min_codepoint <= x <= k.max_codepoint) || covers(
            k.include_intervals@,
            x,
        )) && !covers(k.exclude_intervals@, x)
    }

    /// The engine invariant: a well-formed table, a normalized bounded
    /// materialization that matches it, the canonical order over all 30
    /// categories, and caches whose entries carry exactly the coverage
    /// their keys describe.
    pub closed spec fn wf(self) -> bool {
        &&& self.charmap@.len() == 30
        &&& spec_table_wf(self.table@)
        &&& forall|c: UnicodeCategory| intervals_normalized(#[trigger] self.cat_ivs(c))
        &&& forall|c: UnicodeCategory, k: int|
            0 <= k < self.cat_ivs(c).len() ==> (#[trigger] self.cat_ivs(c)[k]).1 <= MAX_CODEPOINT
        &&& forall|c: UnicodeCategory, x: int|
            #![trigger covers(self.cat_ivs(c), x)]
            covers(self.cat_ivs(c), x) <==> covers(spec_table_lookup(self.table@, c), x)
        &&& forall|x: int| 0 <= x <= MAX_CODEPOINT ==> #[trigger] self.covers_some_cat(x)
        &&& self.categories_order@.len() == 30
        &&& forall|c: UnicodeCategory| self.categories_order@.contains(c)
        &&& forall|p: int, q: int|
            0 <= p < q < 30 ==> self.categories_order@[p] != self.categories_order@[q]
        &&& self.categories_order@[28] == UnicodeCategory::Cc
        &&& self.categories_order@[29] == UnicodeCategory::Cs
        &&& forall|p: int, q: int|
            0 <= p < q < 28 ==> spec_table_lookup(self.table@, self.categories_order@[p]).len()
                <= spec_table_lookup(self.table@, self.categories_order@[q]).len()
        &&& self.categories_labels@.len() == 30
        &&& forall|i: int|
            0 <= i < 30 ==> (#[trigger] self.categories_labels@[i])@ == spec_category_name(
                self.categories_order@[i],
            )
        &&& forall|e: int|
            0 <= e < self.union_cache@.len() ==> intervals_normalized(
                (#[trigger] self.union_cache@[e]).1@,
            )
        &&& forall|e: int, x: int|
            #![trigger covers(self.union_cache@[e].1@, x)]
            0 <= e < self.union_cache@.len() ==> (covers(self.union_cache@[e].1@, x)
                <==> self.mask_covers(self.union_cache@[e].0, x))
        &&& forall|e: int|
            0 <= e < self.query_cache@.len() ==> intervals_normalized(
                (#[trigger] self.query_cache@[e]).1@,
            )
        &&& forall|e: int, x: int|
            #![trigger covers(self.query_cache@[e].1@, x)]
            0 <= e < self.query_cache@.len() ==> (covers(self.query_cache@[e].1@, x)
                <==> self.qkey_covers(self.query_cache@[e].0, x))
    }

    /// Two engine states answer every question the same way; only the
    /// caches may differ.
    pub open spec fn same_model(a: CategoryQueryEngine, b: CategoryQueryEngine) -> bool {
        &&& forall|c: UnicodeCategory| #[trigger] a.cat_ivs(c) == b.cat_ivs(c)
        &&& a.cats_order() == b.cats_order()
        &&& a.labels_seq() == b.labels_seq()
        &&& a.table_seq() == b.table_seq()
        &&& a.spec_version() == b.spec_version()
    }

    /// What the engine invariant guarantees of the publicly visible parts.
    pub proof fn lemma_wf_facts(self)
        requires
            self.wf(),
        ensures
            spec_table_wf(self.table_seq()),
            forall|c: UnicodeCategory| intervals_normalized(#[trigger] self.cat_ivs(c)),
            forall|c: UnicodeCategory, k: int|
                0 <= k < self.cat_ivs(c).len() ==> (#[trigger] self.cat_ivs(c)[k]).1
                    <= MAX_CODEPOINT,
            forall|c: UnicodeCategory, x: int|
                #![trigger covers(self.cat_ivs(c), x)]
                covers(self.cat_ivs(c), x) <==> covers(spec_table_lookup(self.table_seq(), c), x),
            forall|x: int| 0 <= x <= MAX_CODEPOINT ==> #[trigger] self.covers_some_cat(x),
            self.cats_order().len() == 30,
            forall|c: UnicodeCategory| self.cats_order().contains(c),
            forall|p: int, q: int|
                0 <= p < q < 30 ==> self.cats_order()[p] != self.cats_order()[q],
            self.cats_order()[28] == UnicodeCategory::Cc,
            self.cats_order()[29] == UnicodeCategory::Cs,
            forall|p: int, q: int|
                0 <= p < q < 28 ==> spec_table_lookup(self.table_seq(), self.cats_order()[p]).len()
                    <= spec_table_lookup(self.table_seq(), self.cats_order()[q]).len(),
            self.labels_seq().len() == 30,
            forall|i: int|
                0 <= i < 30 ==> (#[trigger] self.labels_seq()[i])@ == spec_category_name(
                    self.cats_order()[i],
                ),
    {
    }

    /// Build an engine from a version and its raw table. The table is
    /// trusted input: one row per category, rows within the codepoint
    /// range, and the rows together covering every codepoint.
    pub fn new(version: UnicodeVersion, table: Table) -> (r: CategoryQueryEngine)
        requires
            spec_table_wf(table@),
        ensures
            r.wf(),
            r.spec_version() == version,
            r.table_seq() == table@,
    {
        let charmap = make_charmap(&table);
        let categories_order = make_categories(&table);
        let n_cats = categories_order.len();
        let mut categories_labels: Vec<&'static str> = Vec::new();
        let mut i: usize = 0;
        while i < n_cats
            invariant
                0 <= i <= n_cats == categories_order@.len(),
                categories_labels@.len() == i,
                forall|p: int|
                    0 <= p < i ==> (#[trigger] categories_labels@[p])@ == spec_category_name(
                        categories_order@[p],
                    ),
            decreases n_cats - i,
        {
            categories_labels.push(categories_order[i].as_str());
            i += 1;
        }
        let r = CategoryQueryEngine {
            version,
            table,
            charmap,
            categories_order,
            categories_labels,
            union_cache: Vec::new(),
            query_cache: Vec::new(),
        };
        proof {
            crate::categories::lemma_category_index_roundtrip();
            assert forall|c: UnicodeCategory, x: int|
                #![trigger covers(r.cat_ivs(c), x)]
                covers(r.cat_ivs(c), x) <==> covers(spec_table_lookup(r.table@, c), x) by {
                assert(spec_category_from_index(spec_category_index(c) as int) == c);
            }
            assert forall|x: int| 0 <= x <= MAX_CODEPOINT implies #[trigger] r.covers_some_cat(
                x,
            ) by {
                assert(spec_table_covers_point(r.table@, x));
                let w = choose|i: int| 0 <= i < r.table@.len() && covers((#[trigger] r.table@[i]).1@, x);
                lemma_table_lookup_at(r.table@, w);
                let c = r.table@[w].0;
                assert(covers(spec_table_lookup(r.table@, c), x));
                assert(covers(r.cat_ivs(c), x));
            }
        }
        r
    }

    /// The raw table this engine was built from.
    pub fn table(&self) -> (r: &Table)
        ensures
            r@ == self.table_seq(),
    {
        &self.table
    }

    /// The engine's Unicode version.
    pub fn version(&self) -> (r: UnicodeVersion)
        ensures
            r == self.spec_version(),
    {
        self.version
    }

    /// The materialized mapping: entry `i` holds the intervals of the
    /// category with numeric assignment `i`.
    pub fn charmap(&self) -> (r: &Vec<Vec<Interval>>)
        requires
            self.wf(),
        ensures
            r@.len() == 30,
            forall|c: UnicodeCategory|
                (#[trigger] r@[spec_category_index(c) as int])@ == self.cat_ivs(c),
    {
        &self.charmap
    }

    /// The materialized intervals of one category.
    pub fn category_intervals(&self, c: UnicodeCategory) -> (r: &Vec<Interval>)
        requires
            self.wf(),
        ensures
            r@ == self.cat_ivs(c),
    {
        let i = category_index(c);
        &self.charmap[i as usize]
    }

    /// The canonical category order, as two-letter labels.
    pub fn categories(&self) -> (r: &Vec<&'static str>)
        requires
            self.wf(),
        ensures
            r@ == self.labels_seq(),
            r@.len() == 30,
            forall|i: int|
                0 <= i < 30 ==> (#[trigger] r@[i])@ == spec_category_name(self.cats_order()[i]),
    {
        &self.categories_labels
    }

    /// The canonical category order.
    pub fn categories_list(&self) -> (r: &Vec<UnicodeCategory>)
        requires
            self.wf(),
        ensures
            r@ == self.cats_order(),
    {
        &self.categories_order
    }
}

/// The table row for `c`; table completeness guarantees one exists.
fn table_find<'a>(table: &'a Table, c: UnicodeCategory) -> (r: &'a Vec<Interval>)
    requires
        spec_table_complete(table@),
    ensures
        r@ == spec_table_lookup(table@, c),
        spec_table_entries_wf(table@) ==> intervals_valid(r@) && (forall|k: int|
            0 <= k < r@.len() ==> (#[trigger] r@[k]).1 <= MAX_CODEPOINT),
{
    let n = table.len();
    let mut i: usize = 0;
    proof {
        assert(table@.skip(0) =~= table@);
    }
    while i < n
        invariant
            0 <= i <= n == table@.len(),
            spec_table_complete(table@),
            spec_table_lookup(table@, c) == spec_table_lookup(table@.skip(i as int), c),
            forall|j: int| 0 <= j < i ==> (#[trigger] table@[j]).0 != c,
        decreases n - i,
    {
        proof {
            let skipped = table@.skip(i as int);
            assert(skipped[0] == table@[i as int]);
            assert(skipped.drop_first() =~= table@.skip(i + 1));
        }
        if matches!(table[i].0, cat if category_index(cat) == category_index(c)) {
            proof {
                crate::categories::lemma_category_index_injective(table@[i as int].0, c);
                if spec_table_entries_wf(table@) {
                    assert forall|k: int|
                        0 <= k < table@[i as int].1@.len() implies (#[trigger] table@[i as int].1@[k]).0
                        <= table@[i as int].1@[k].1 && table@[i as int].1@[k].1
                        <= MAX_CODEPOINT by {
                        assert(table@[i as int].1@[k].0 <= table@[i as int].1@[k].1);
                    }
                }
            }
            return &table[i].1;
        }
        assert(table@[i as int].0 != c) by {
            if table@[i as int].0 == c {
                assert(spec_category_index(table@[i as int].0) == spec_category_index(c));
            }
        }
        i += 1;
    }
    proof {
        assert(spec_table_has(table@, c));
        let w = choose|w: int| 0 <= w < table@.len() && (#[trigger] table@[w]).0 == c;
        assert(false);
    }
    &table[0].1
}


/// The same member set covers the same codepoints in two engine states
/// whose materializations agree.
proof fn lemma_mask_covers_same(
    a: CategoryQueryEngine,
    b: CategoryQueryEngine,
    m: CategoryBitMap,
    x: int,
)
    requires
        forall|c: UnicodeCategory| #[trigger] a.cat_ivs(c) == b.cat_ivs(c),
    ensures
        a.mask_covers(m, x) == b.mask_covers(m, x),
{
    if a.mask_covers(m, x) {
        let c = choose|c: UnicodeCategory| m.has(c) && covers(#[trigger] a.cat_ivs(c), x);
        assert(covers(b.cat_ivs(c), x));
    }
    if b.mask_covers(m, x) {
        let c = choose|c: UnicodeCategory| m.has(c) && covers(#[trigger] b.cat_ivs(c), x);
        assert(covers(a.cat_ivs(c), x));
    }
}

/// A category qualifies for the normalized key: it is in the incl set
/// (or in everything, when no incl set is given) and not excluded.
pub open spec fn spec_key_has(
    exclude: CategoryBitMap,
    incl: Option<CategoryBitMap>,
    c: UnicodeCategory,
) -> bool {
    (match incl {
        Some(m) => m.has(c),
        None => true,
    }) && !exclude.has(c)
}

/// The incl argument as a value.
pub open spec fn spec_opt_mask(incl: Option<&CategoryBitMap>) -> Option<CategoryBitMap> {
    match incl {
        Some(m) => Some(*m),
        None => None,
    }
}

/// The position of `c` in a duplicate-free order that contains it.
pub open spec fn spec_order_pos(s: Seq<UnicodeCategory>, c: UnicodeCategory) -> int {
    choose|i: int| 0 <= i < s.len() && s[i] == c
}

impl CategoryQueryEngine {
    /// The normalized category key: the categories that are in `incl`
    /// (all of them when `incl` is absent) but not in `exclude`, in
    /// canonical order and without duplicates.
    pub fn category_key(&self, exclude: &CategoryBitMap, incl: Option<&CategoryBitMap>) -> (r:
        Vec<UnicodeCategory>)
        requires
            self.wf(),
        ensures
            forall|j: int|
                0 <= j < r@.len() ==> spec_key_has(
                    *exclude,
                    spec_opt_mask(incl),
                    #[trigger] r@[j],
                ),
            forall|c: UnicodeCategory|
                r@.contains(c) <==> spec_key_has(*exclude, spec_opt_mask(incl), c),
            forall|p: int|
                0 <= p < r@.len() - 1 ==> spec_order_pos(self.cats_order(), #[trigger] r@[p])
                    < spec_order_pos(self.cats_order(), r@[p + 1]),
    {
        proof {
            self.lemma_wf_facts();
        }
        let n = self.categories_order.len();
        let mut out: Vec<UnicodeCategory> = Vec::new();
        let mut i: usize = 0;
        while i < n
            invariant
                self.wf(),
                0 <= i <= n == 30,
                self.cats_order().len() == 30,
                forall|p: int, q: int|
                    0 <= p < q < 30 ==> self.cats_order()[p] != self.cats_order()[q],
                forall|j: int|
                    0 <= j < out@.len() ==> spec_key_has(
                        *exclude,
                        spec_opt_mask(incl),
                        #[trigger] out@[j],
                    ),
                forall|c: UnicodeCategory|
                    out@.contains(c) <==> (exists|j: int|
                        0 <= j < i && #[trigger] self.cats_order()[j] == c) && spec_key_has(
                        *exclude,
                        spec_opt_mask(incl),
                        c,
                    ),
                forall|p: int|
                    0 <= p < out@.len() ==> 0 <= spec_order_pos(
                        self.cats_order(),
                        #[trigger] out@[p],
                    ) < i && self.cats_order()[spec_order_pos(self.cats_order(), out@[p])]
                        == out@[p],
                forall|p: int, q: int|
                    0 <= p < q < out@.len() ==> spec_order_pos(self.cats_order(), out@[p])
                        < spec_order_pos(self.cats_order(), out@[q]),
            decreases n - i,
        {
            let c = self.categories_order[i];
            let keep = (match incl {
                Some(m) => m.contains(c),
                None => true,
            }) && !exclude.contains(c);
            proof {
                assert(keep == spec_key_has(*exclude, spec_opt_mask(incl), c));
            }
            let ghost out0 = out@;
            if keep {
                out.push(c);
                proof {
                    assert(out@ == out0.push(c));
                    assert(out@.last() == c);
                    assert(spec_order_pos(self.cats_order(), c) == i) by {
                        assert(self.cats_order()[i as int] == c);
                        let w = spec_order_pos(self.cats_order(), c);
                        assert(0 <= w < 30 && self.cats_order()[w] == c);
                        if w != i {
                            assert(self.cats_order()[w] != self.cats_order()[i as int]);
                        }
                    }
                }
            }
            proof {
                assert forall|d: UnicodeCategory|
                    out@.contains(d) <==> (exists|j: int|
                        0 <= j < i + 1 && #[trigger] self.cats_order()[j] == d) && spec_key_has(
                        *exclude,
                        spec_opt_mask(incl),
                        d,
                    ) by {
                    if out@.contains(d) {
                        let p = choose|p: int| 0 <= p < out@.len() && out@[p] == d;
                        if p < out0.len() {
                            assert(out0[p] == d);
                            assert(out0.contains(d));
                            let j = choose|j: int|
                                0 <= j < i && #[trigger] self.cats_order()[j] == d;
                            assert(0 <= j < i + 1 && self.cats_order()[j] == d);
                        } else {
                            assert(d == c);
                            assert(self.cats_order()[i as int] == d);
                        }
                    }
                    if (exists|j: int| 0 <= j < i + 1 && #[trigger] self.cats_order()[j] == d)
                        && spec_key_has(*exclude, spec_opt_mask(incl), d) {
                        let j = choose|j: int|
                            0 <= j < i + 1 && #[trigger] self.cats_order()[j] == d;
                        if j < i {
                            assert(exists|j2: int|
                                0 <= j2 < i && #[trigger] self.cats_order()[j2] == d);
                            assert(out0.contains(d));
                            let p = choose|p: int| 0 <= p < out0.len() && out0[p] == d;
                            assert(out@[p] == d);
                            assert(out@.contains(d));
                        } else {
                            assert(d == c);
                            assert(keep);
                            assert(out@.last() == c);
                            assert(out@.contains(d));
                        }
                    }
                }
            }
            i += 1;
        }
        proof {
            assert forall|c: UnicodeCategory|
                out@.contains(c) <==> spec_key_has(*exclude, spec_opt_mask(incl), c) by {
                if spec_key_has(*exclude, spec_opt_mask(incl), c) {
                    assert(self.cats_order().contains(c));
                    let w = choose|w: int|
                        0 <= w < self.cats_order().len() && self.cats_order()[w] == c;
                    assert(self.cats_order()[w] == c);
                }
            }
        }
        out
    }

    /// A memoized union, if this mask has been resolved before.
    fn union_cache_get(&self, mask: CategoryBitMap) -> (r: Option<Vec<Interval>>)
        requires
            self.wf(),
        ensures
            match r {
                Some(v) => intervals_normalized(v@) && forall|x: int|
                    covers(v@, x) <==> self.mask_covers(mask, x),
                None => true,
            },
    {
        let n = self.union_cache.len();
        let mut i: usize = 0;
        while i < n
            invariant
                self.wf(),
                0 <= i <= n == self.union_cache@.len(),
            decreases n - i,
        {
            if self.union_cache[i].0 == mask {
                return Some(copy_intervals(&self.union_cache[i].1));
            }
            i += 1;
        }
        None
    }

    /// Remember the union resolved for a mask.
    fn union_cache_put(&mut self, mask: CategoryBitMap, v: &Vec<Interval>)
        requires
            old(self).wf(),
            intervals_normalized(v@),
            forall|x: int| covers(v@, x) <==> old(self).mask_covers(mask, x),
        ensures
            final(self).wf(),
            Self::same_model(*old(self), *final(self)),
    {
        let entry = (mask, copy_intervals(v));
        self.union_cache.push(entry);
        proof {
            let oc = old(self).union_cache@;
            assert(self.union_cache@ == oc.push(entry));
            assert(forall|c: UnicodeCategory|
                #[trigger] self.cat_ivs(c) == old(self).cat_ivs(c));
            assert forall|x: int| 0 <= x <= MAX_CODEPOINT implies #[trigger] self.covers_some_cat(
                x,
            ) by {
                assert(old(self).covers_some_cat(x));
                let c = choose|c: UnicodeCategory| covers(#[trigger] old(self).cat_ivs(c), x);
                assert(covers(self.cat_ivs(c), x));
            }
            assert forall|e: int, x: int|
                #![trigger covers(self.query_cache@[e].1@, x)]
                0 <= e < self.query_cache@.len() implies (covers(self.query_cache@[e].1@, x)
                <==> self.qkey_covers(self.query_cache@[e].0, x)) by {
                assert(self.query_cache@[e] == old(self).query_cache@[e]);
                lemma_mask_covers_same(*self, *old(self), self.query_cache@[e].0.mask, x);
                assert(covers(old(self).query_cache@[e].1@, x) <==> old(self).qkey_covers(
                    old(self).query_cache@[e].0,
                    x,
                ));
            }
            assert forall|e: int, x: int|
                #![trigger covers(self.union_cache@[e].1@, x)]
                0 <= e < self.union_cache@.len() implies (covers(self.union_cache@[e].1@, x)
                <==> self.mask_covers(self.union_cache@[e].0, x)) by {
                lemma_mask_covers_same(*self, *old(self), self.union_cache@[e].0, x);
                if e < oc.len() {
                    assert(self.union_cache@[e] == oc[e]);
                    assert(covers(oc[e].1@, x) <==> old(self).mask_covers(oc[e].0, x));
                } else {
                    assert(self.union_cache@[e] == entry);
                    assert(entry.1@ == v@);
                }
            }
            assert forall|e: int|
                0 <= e < self.union_cache@.len() implies intervals_normalized(
                (#[trigger] self.union_cache@[e]).1@,
            ) by {
                if e < oc.len() {
                    assert(self.union_cache@[e] == oc[e]);
                } else {
                    assert(self.union_cache@[e] == entry);
                }
            }
        }
    }


    /// With every category present in the key's member set, the union is
    /// the full codepoint range.
    #[verifier::rlimit(100)]
    #[verifier::spinoff_prover]
    proof fn lemma_full_key_coverage(
        self,
        key: Seq<UnicodeCategory>,
        mask: CategoryBitMap,
        out: Seq<Interval>,
    )
        requires
            self.wf(),
            forall|c: UnicodeCategory|
                mask.has(c) <==> exists|j: int| 0 <= j < key.len() && #[trigger] key[j] == c,
            forall|c: UnicodeCategory| mask.has(c),
            out == seq![(0u32, MAX_CODEPOINT)],
        ensures
            forall|x: int|
                #![trigger covers(out, x)]
                covers(out, x) <==> exists|i: int|
                    0 <= i < key.len() && covers(self.cat_ivs(#[trigger] key[i]), x),
            intervals_normalized(out),
    {
        assert(out[0] == (0u32, MAX_CODEPOINT));
        assert forall|x: int|
            #![trigger covers(out, x)]
            covers(out, x) <==> exists|i: int|
                0 <= i < key.len() && covers(self.cat_ivs(#[trigger] key[i]), x) by {
            crate::intervals::lemma_covers_singleton((0u32, MAX_CODEPOINT), x);
            assert(out =~= seq![(0u32, MAX_CODEPOINT)]);
            assert(covers(out, x) <==> 0 <= x <= MAX_CODEPOINT);
            if 0 <= x <= MAX_CODEPOINT {
                assert(self.covers_some_cat(x));
                let c = choose|c: UnicodeCategory| covers(#[trigger] self.cat_ivs(c), x);
                assert(mask.has(c));
                let j = choose|j: int| 0 <= j < key.len() && #[trigger] key[j] == c;
                assert(covers(self.cat_ivs(key[j]), x));
            }
            if exists|i: int| 0 <= i < key.len() && covers(self.cat_ivs(#[trigger] key[i]), x) {
                let i = choose|i: int|
                    0 <= i < key.len() && covers(self.cat_ivs(#[trigger] key[i]), x);
                let ivs = self.cat_ivs(key[i]);
                let w = choose|w: int| 0 <= w < ivs.len() && (#[trigger] ivs[w]).0 <= x <= ivs[w].1;
                assert(ivs[w].1 <= MAX_CODEPOINT);
            }
        }
    }

    /// A fold that covered exactly the prefix mask covers exactly what
    /// some key category covers.
    proof fn lemma_fold_key_coverage(
        a: CategoryQueryEngine,
        b: CategoryQueryEngine,
        key: Seq<UnicodeCategory>,
        pmask: CategoryBitMap,
        acc: Seq<Interval>,
    )
        requires
            forall|c: UnicodeCategory| #[trigger] a.cat_ivs(c) == b.cat_ivs(c),
            forall|c: UnicodeCategory|
                pmask.has(c) <==> exists|j: int| 0 <= j < key.len() && #[trigger] key[j] == c,
            forall|x: int| #![trigger covers(acc, x)] covers(acc, x) <==> b.mask_covers(pmask, x),
        ensures
            forall|x: int|
                #![trigger covers(acc, x)]
                covers(acc, x) <==> exists|i: int|
                    0 <= i < key.len() && covers(a.cat_ivs(#[trigger] key[i]), x),
    {
        assert forall|x: int|
            #![trigger covers(acc, x)]
            covers(acc, x) <==> exists|i: int|
                0 <= i < key.len() && covers(a.cat_ivs(#[trigger] key[i]), x) by {
            if covers(acc, x) {
                let d = choose|d: UnicodeCategory|
                    pmask.has(d) && covers(#[trigger] b.cat_ivs(d), x);
                let j = choose|j: int| 0 <= j < key.len() && #[trigger] key[j] == d;
                assert(covers(a.cat_ivs(key[j]), x));
            }
            if exists|i: int| 0 <= i < key.len() && covers(a.cat_ivs(#[trigger] key[i]), x) {
                let i = choose|i: int|
                    0 <= i < key.len() && covers(a.cat_ivs(#[trigger] key[i]), x);
                assert(pmask.has(key[i]));
                assert(covers(b.cat_ivs(key[i]), x));
                assert(b.mask_covers(pmask, x));
            }
        }
    }

    /// The union of the interval lists of every category in `key`: the
    /// codepoints that belong to at least one of them, as a normalized
    /// list. A key naming every category gives the full codepoint range
    /// at once. Results are memoized per normalized member set, for the
    /// full key and for every prefix resolved on the way.
    #[verifier::rlimit(100)]
    pub fn query_for_key(&mut self, key: &Vec<UnicodeCategory>) -> (r: Vec<Interval>)
        requires
            old(self).wf(),
        ensures
            final(self).wf(),
            Self::same_model(*old(self), *final(self)),
            intervals_normalized(r@),
            forall|x: int|
                #![trigger covers(r@, x)]
                covers(r@, x) <==> exists|i: int|
                    0 <= i < key@.len() && covers(old(self).cat_ivs(#[trigger] key@[i]), x),
            (forall|c: UnicodeCategory| key@.contains(c)) ==> r@ == seq![
                (0u32, MAX_CODEPOINT),
            ],
    {
        let n = key.len();
        let mut mask = CategoryBitMap::new();
        let mut i: usize = 0;
        while i < n
            invariant
                0 <= i <= n == key@.len(),
                forall|c: UnicodeCategory|
                    mask.has(c) <==> exists|j: int| 0 <= j < i && #[trigger] key@[j] == c,
            decreases n - i,
        {
            let c = key[i];
            mask.add_category(c);
            proof {
                assert forall|d: UnicodeCategory|
                    mask.has(d) <==> exists|j: int| 0 <= j < i + 1 && #[trigger] key@[j] == d by {
                    if mask.has(d) {
                        if d == c {
                            assert(key@[i as int] == d);
                        }
                    }
                    if exists|j: int| 0 <= j < i + 1 && #[trigger] key@[j] == d {
                        let j = choose|j: int| 0 <= j < i + 1 && #[trigger] key@[j] == d;
                        if j < i {
                            assert(exists|j2: int| 0 <= j2 < i && #[trigger] key@[j2] == d);
                        }
                    }
                }
            }
            i += 1;
        }
        if mask.is_full() {
            let mut out: Vec<Interval> = Vec::new();
            out.push((0, MAX_CODEPOINT));
            proof {
                assert(out@ =~= seq![(0u32, MAX_CODEPOINT)]);
                self.lemma_full_key_coverage(key@, mask, out@);
            }
            return out;
        }
        let ghost missing = choose|c: UnicodeCategory| !mask.has(c);
        proof {
            assert(!mask.has(missing));
            if key@.contains(missing) {
                let j = choose|j: int| 0 <= j < key@.len() && key@[j] == missing;
                assert(key@[j] == missing);
                assert(false);
            }
        }
        let mut acc: Vec<Interval> = Vec::new();
        let mut pmask = CategoryBitMap::new();
        let mut k: usize = 0;
        proof {
            assert(forall|c: UnicodeCategory| !pmask.has(c));
        }
        while k < n
            invariant
                0 <= k <= n == key@.len(),
                self.wf(),
                Self::same_model(*old(self), *self),
                intervals_normalized(acc@),
                forall|c: UnicodeCategory|
                    pmask.has(c) <==> exists|j: int| 0 <= j < k && #[trigger] key@[j] == c,
                forall|x: int|
                    #![trigger covers(acc@, x)]
                    covers(acc@, x) <==> self.mask_covers(pmask, x),
            decreases n - k,
        {
            let c = key[k];
            let mut nmask = pmask;
            nmask.add_category(c);
            proof {
                assert forall|d: UnicodeCategory|
                    nmask.has(d) <==> exists|j: int| 0 <= j < k + 1 && #[trigger] key@[j] == d by {
                    if nmask.has(d) {
                        if d == c {
                            assert(key@[k as int] == d);
                        }
                    }
                    if exists|j: int| 0 <= j < k + 1 && #[trigger] key@[j] == d {
                        let j = choose|j: int| 0 <= j < k + 1 && #[trigger] key@[j] == d;
                        if j < k {
                            assert(exists|j2: int| 0 <= j2 < k && #[trigger] key@[j2] == d);
                        }
                    }
                }
            }
            match self.union_cache_get(nmask) {
                Some(v) => {
                    acc = v;
                },
                None => {
                    let part = copy_intervals(self.category_intervals(c));
                    proof {
                        self.lemma_wf_facts();
                    }
                    let acc2 = union_intervals(acc, part);
                    proof {
                        assert forall|x: int|
                            #![trigger covers(acc2@, x)]
                            covers(acc2@, x) <==> self.mask_covers(nmask, x) by {
                            if covers(acc2@, x) {
                                if covers(part@, x) {
                                    assert(nmask.has(c) && covers(self.cat_ivs(c), x));
                                }
                            }
                            if self.mask_covers(nmask, x) {
                                let d = choose|d: UnicodeCategory|
                                    nmask.has(d) && covers(#[trigger] self.cat_ivs(d), x);
                                if d == c {
                                    assert(covers(part@, x));
                                } else {
                                    assert(pmask.has(d));
                                    assert(self.mask_covers(pmask, x));
                                }
                            }
                        }
                    }
                    let ghost pre_self = *self;
                    self.union_cache_put(nmask, &acc2);
                    proof {
                        assert forall|x: int|
                            #![trigger covers(acc2@, x)]
                            covers(acc2@, x) <==> self.mask_covers(nmask, x) by {
                            lemma_mask_covers_same(*self, pre_self, nmask, x);
                            assert(covers(acc2@, x) <==> pre_self.mask_covers(nmask, x));
                        }
                    }
                    acc = acc2;
                },
            }
            pmask = nmask;
            k += 1;
        }
        proof {
            Self::lemma_fold_key_coverage(*old(self), *self, key@, pmask, acc@);
            assert(!key@.contains(missing));
        }
        acc
    }
}


/// The predicate selecting categories of one major class.
pub open spec fn major_pred(letter: char) -> spec_fn(UnicodeCategory) -> bool {
    |c: UnicodeCategory| spec_category_name(c)[0] == letter
}

/// What one token expands to: all canonical-order categories of a major
/// class, the named category itself, or nothing for an invalid token.
pub open spec fn spec_expand_one(order: Seq<UnicodeCategory>, name: Seq<char>) -> Seq<
    UnicodeCategory,
> {
    if name.len() == 1 && spec_is_major_letter(name[0]) {
        order.filter(major_pred(name[0]))
    } else {
        match spec_category_of(name) {
            Some(c) => seq![c],
            None => Seq::empty(),
        }
    }
}

/// The concatenated expansions of a list of tokens.
pub open spec fn spec_expansion(order: Seq<UnicodeCategory>, names: Seq<Seq<char>>) -> Seq<
    UnicodeCategory,
>
    decreases names.len(),
{
    if names.len() == 0 {
        Seq::empty()
    } else {
        spec_expansion(order, names.drop_last()) + spec_expand_one(order, names.last())
    }
}

/// Expansion depends only on the set of input names: two inputs with the
/// same names, in any order and with any duplication, normalize to the
/// same sorted list and so expand to the same categories.
pub proof fn lemma_expansion_set_insensitive(
    names1: Seq<&str>,
    names2: Seq<&str>,
    u1: Seq<Seq<char>>,
    u2: Seq<Seq<char>>,
)
    requires
        sorted_strict_names(u1),
        sorted_strict_names(u2),
        forall|s: Seq<char>| u1.contains(s) <==> contains_name(names1, s),
        forall|s: Seq<char>| u2.contains(s) <==> contains_name(names2, s),
        forall|s: Seq<char>| contains_name(names1, s) <==> contains_name(names2, s),
    ensures
        u1 == u2,
{
    crate::names::lemma_sorted_strict_unique(u1, u2);
}

/// Insert `x` at position `p`, shifting later elements one place right.
fn insert_str_at<'a>(v: &mut Vec<&'a str>, p: usize, x: &'a str)
    requires
        p <= old(v)@.len(),
    ensures
        final(v)@.len() == old(v)@.len() + 1,
        forall|j: int| 0 <= j < p ==> #[trigger] final(v)@[j] == old(v)@[j],
        final(v)@[p as int] == x,
        forall|j: int| p < j < final(v)@.len() ==> #[trigger] final(v)@[j] == old(v)@[j - 1],
{
    let n = v.len();
    v.push(x);
    let mut k: usize = n;
    while k > p
        invariant
            p <= k <= n,
            v@.len() == old(v)@.len() + 1 == n + 1,
            forall|j: int| 0 <= j < k ==> #[trigger] v@[j] == old(v)@[j],
            forall|j: int| k < j < v@.len() ==> #[trigger] v@[j] == old(v)@[j - 1],
        decreases k,
    {
        let prev = v[k - 1];
        v[k] = prev;
        k -= 1;
    }
    v[p] = x;
}

/// The input names in sorted order without duplicates.
fn sort_dedup_names<'a>(categories: &[&'a str]) -> (r: Vec<&'a str>)
    ensures
        sorted_strict_names(views_of(r@)),
        forall|s: Seq<char>| contains_name(r@, s) <==> contains_name(categories@, s),
{
    let n = categories.len();
    let mut sorted: Vec<&'a str> = Vec::new();
    let mut i: usize = 0;
    while i < n
        invariant
            0 <= i <= n == categories@.len(),
            forall|p: int, q: int|
                0 <= p < q < sorted@.len() ==> lex_lt(
                    (#[trigger] sorted@[p])@,
                    (#[trigger] sorted@[q])@,
                ),
            forall|s: Seq<char>|
                contains_name(sorted@, s) <==> contains_name(categories@.subrange(0, i as int), s),
        decreases n - i,
    {
        let name = categories[i];
        let m = sorted.len();
        let mut p: usize = 0;
        while p < m && str_lt(sorted[p], name)
            invariant
                0 <= p <= m == sorted@.len(),
                forall|j: int| 0 <= j < p ==> lex_lt((#[trigger] sorted@[j])@, name@),
            decreases m - p,
        {
            p += 1;
        }
        let dup = p < m && str_eq(sorted[p], name);
        let ghost s0 = sorted@;
        proof {
            if p < m && !dup {
                crate::names::lemma_lex_trichotomy(name@, s0[p as int]@);
            }
            // `name` can only already occur at position p
            assert forall|j: int| 0 <= j < m && !dup implies (#[trigger] s0[j])@ != name@ by {
                if j < p {
                    crate::names::lemma_lex_asymmetric(s0[j]@, name@);
                } else if j > p {
                    assert(lex_lt(s0[p as int]@, s0[j]@));
                    if p < m {
                        crate::names::lemma_lex_transitive(name@, s0[p as int]@, s0[j]@);
                        crate::names::lemma_lex_asymmetric(name@, s0[j]@);
                    }
                }
            }
        }
        if !dup {
            insert_str_at(&mut sorted, p, name);
            proof {
                // still strictly sorted
                assert forall|a: int, b: int|
                    0 <= a < b < sorted@.len() implies lex_lt(
                    (#[trigger] sorted@[a])@,
                    (#[trigger] sorted@[b])@,
                ) by {
                    if b < p {
                        assert(sorted@[a] == s0[a] && sorted@[b] == s0[b]);
                    } else if b == p {
                        assert(sorted@[a] == s0[a]);
                        assert(lex_lt(s0[a]@, name@));
                    } else if a < p {
                        assert(sorted@[a] == s0[a] && sorted@[b] == s0[b - 1]);
                        if b - 1 == p {
                            assert(lex_lt(s0[a]@, name@));
                            assert(lex_lt(name@, s0[p as int]@));
                            crate::names::lemma_lex_transitive(s0[a]@, name@, s0[p as int]@);
                        }
                    } else if a == p {
                        assert(sorted@[b] == s0[b - 1]);
                        assert(lex_lt(name@, s0[p as int]@));
                        if b - 1 > p {
                            assert(lex_lt(s0[p as int]@, s0[b - 1]@));
                            crate::names::lemma_lex_transitive(name@, s0[p as int]@, s0[b - 1]@);
                        }
                    } else {
                        assert(sorted@[a] == s0[a - 1] && sorted@[b] == s0[b - 1]);
                    }
                }
                // membership grows by exactly this name
                assert forall|s: Seq<char>|
                    contains_name(sorted@, s) <==> contains_name(
                        categories@.subrange(0, i + 1),
                        s,
                    ) by {
                    if contains_name(sorted@, s) {
                        let w = choose|w: int|
                            0 <= w < sorted@.len() && (#[trigger] sorted@[w])@ == s;
                        if w < p {
                            assert(s0[w]@ == s);
                            assert(contains_name(s0, s));
                            let w2 = choose|w2: int|
                                0 <= w2 < categories@.subrange(0, i as int).len() && (
                                #[trigger] categories@.subrange(0, i as int)[w2])@ == s;
                            assert((categories@.subrange(0, i + 1)[w2])@ == s);
                        } else if w == p {
                            assert((categories@.subrange(0, i + 1)[i as int])@ == s);
                        } else {
                            assert(s0[w - 1]@ == s);
                            assert(contains_name(s0, s));
                            let w2 = choose|w2: int|
                                0 <= w2 < categories@.subrange(0, i as int).len() && (
                                #[trigger] categories@.subrange(0, i as int)[w2])@ == s;
                            assert((categories@.subrange(0, i + 1)[w2])@ == s);
                        }
                        assert(contains_name(categories@.subrange(0, i + 1), s));
                    }
                    if contains_name(categories@.subrange(0, i + 1), s) {
                        let w = choose|w: int|
                            0 <= w < categories@.subrange(0, i + 1).len() && (
                            #[trigger] categories@.subrange(0, i + 1)[w])@ == s;
                        if w < i {
                            assert((categories@.subrange(0, i as int)[w])@ == s);
                            assert(contains_name(categories@.subrange(0, i as int), s));
                            assert(contains_name(s0, s));
                            let w2 = choose|w2: int|
                                0 <= w2 < s0.len() && (#[trigger] s0[w2])@ == s;
                            if w2 < p {
                                assert((sorted@[w2])@ == s);
                            } else {
                                assert((sorted@[w2 + 1])@ == s);
                            }
                        } else {
                            assert(s == name@);
                            assert((sorted@[p as int])@ == s);
                        }
                        assert(contains_name(sorted@, s));
                    }
                }
            }
        } else {
            proof {
                assert((s0[p as int])@ == name@);
                assert forall|s: Seq<char>|
                    contains_name(sorted@, s) <==> contains_name(
                        categories@.subrange(0, i + 1),
                        s,
                    ) by {
                    if contains_name(sorted@, s) {
                        let w2 = choose|w2: int|
                            0 <= w2 < categories@.subrange(0, i as int).len() && (
                            #[trigger] categories@.subrange(0, i as int)[w2])@ == s;
                        assert((categories@.subrange(0, i + 1)[w2])@ == s);
                    }
                    if contains_name(categories@.subrange(0, i + 1), s) {
                        let w = choose|w: int|
                            0 <= w < categories@.subrange(0, i + 1).len() && (
                            #[trigger] categories@.subrange(0, i + 1)[w])@ == s;
                        if w < i {
                            assert((categories@.subrange(0, i as int)[w])@ == s);
                        } else {
                            assert(s == name@);
                            assert((sorted@[p as int])@ == s);
                        }
                    }
                }
            }
        }
        i += 1;
    }
    proof {
        assert(categories@.subrange(0, n as int) =~= categories@);
        assert forall|p: int, q: int|
            0 <= p < q < views_of(sorted@).len() implies lex_lt(
            #[trigger] views_of(sorted@)[p],
            #[trigger] views_of(sorted@)[q],
        ) by {
            assert(views_of(sorted@)[p] == sorted@[p]@);
            assert(views_of(sorted@)[q] == sorted@[q]@);
        }
    }
    sorted
}

/// Every name in the list is a valid two-letter category code.
pub open spec fn names_all_valid(names: Seq<&str>) -> bool {
    forall|i: int| 0 <= i < names.len() ==> spec_category_of((#[trigger] names[i])@) is Some
}

/// Some name in the list names category `c`.
pub open spec fn spec_name_set_has(names: Seq<&str>, c: UnicodeCategory) -> bool {
    exists|i: int| 0 <= i < names.len() && spec_category_of((#[trigger] names[i])@) == Some(c)
}

/// Position `i` holds the first invalid name of the list.
pub open spec fn spec_first_invalid(names: Seq<&str>, i: int) -> bool {
    &&& 0 <= i < names.len()
    &&& spec_category_of(names[i]@) is None
    &&& forall|j: int| 0 <= j < i ==> spec_category_of((#[trigger] names[j])@) is Some
}

/// The names of an optional list, empty when absent.
pub open spec fn spec_names_of<'a>(o: Option<&[&'a str]>) -> Seq<&'a str> {
    match o {
        Some(s) => s@,
        None => Seq::empty(),
    }
}

/// The optional name list as an optional sequence.
pub open spec fn spec_names_opt<'a>(o: Option<&[&'a str]>) -> Option<Seq<&'a str>> {
    match o {
        Some(s) => Some(s@),
        None => None,
    }
}

/// The characters of an optional string, empty when absent.
pub open spec fn spec_chars_of(o: Option<&str>) -> Seq<char> {
    match o {
        Some(s) => s@,
        None => Seq::empty(),
    }
}

/// The effective minimum codepoint after defaulting.
pub open spec fn spec_min_of(o: Option<u32>) -> int {
    match o {
        Some(v) => v as int,
        None => 0,
    }
}

/// The effective maximum codepoint after defaulting.
pub open spec fn spec_max_of(o: Option<u32>) -> int {
    match o {
        Some(v) => v as int,
        None => MAX_CODEPOINT as int,
    }
}

/// A category qualifies for a query: named by the include list (by every
/// list, when absent) and not named by the exclude list.
pub open spec fn spec_query_key_has(
    excl: Seq<&str>,
    incl: Option<Seq<&str>>,
    c: UnicodeCategory,
) -> bool {
    (match incl {
        Some(s) => spec_name_set_has(s, c),
        None => true,
    }) && !spec_name_set_has(excl, c)
}

/// The member set named by a validated category-name list.
fn mask_from_names<'a>(names: &[&'a str]) -> (r: Result<CategoryBitMap, Error<'a>>)
    ensures
        match r {
            Result::Ok(m) => names_all_valid(names@) && forall|c: UnicodeCategory|
                m.has(c) <==> spec_name_set_has(names@, c),
            Result::Err(e) => e matches Error::InvalidCategory(t) && exists|i: int|
                #[trigger] spec_first_invalid(names@, i) && t == names@[i],
        },
{
    let n = names.len();
    let mut mask = CategoryBitMap::new();
    let mut i: usize = 0;
    while i < n
        invariant
            0 <= i <= n == names@.len(),
            forall|j: int| 0 <= j < i ==> spec_category_of((#[trigger] names@[j])@) is Some,
            forall|c: UnicodeCategory|
                mask.has(c) <==> exists|j: int|
                    0 <= j < i && spec_category_of((#[trigger] names@[j])@) == Some(c),
        decreases n - i,
    {
        let name = names[i];
        match UnicodeCategory::from_name(name) {
            Option::Some(c) => {
                mask.add_category(c);
                proof {
                    assert forall|d: UnicodeCategory|
                        mask.has(d) <==> exists|j: int|
                            0 <= j < i + 1 && spec_category_of((#[trigger] names@[j])@) == Some(
                                d,
                            ) by {
                        if mask.has(d) {
                            if d == c {
                                assert(spec_category_of(names@[i as int]@) == Some(d));
                            }
                        }
                        if exists|j: int|
                            0 <= j < i + 1 && spec_category_of((#[trigger] names@[j])@) == Some(
                                d,
                            ) {
                            let j = choose|j: int|
                                0 <= j < i + 1 && spec_category_of((#[trigger] names@[j])@)
                                    == Some(d);
                            if j < i {
                                assert(exists|j2: int|
                                    0 <= j2 < i && spec_category_of((#[trigger] names@[j2])@)
                                        == Some(d));
                            }
                        }
                    }
                }
            },
            Option::None => {
                proof {
                    assert(spec_first_invalid(names@, i as int));
                }
                return Err(Error::InvalidCategory(name));
            },
        }
        i += 1;
    }
    Ok(mask)
}

/// The intervals clipped to `[lo, hi]`: intervals wholly outside are
/// dropped and partly overlapping ones are truncated.
fn clip_intervals(base: &Vec<Interval>, lo: u32, hi: u32) -> (r: Vec<Interval>)
    requires
        intervals_normalized(base@),
        lo <= hi,
    ensures
        intervals_normalized(r@),
        forall|x: int|
            #![trigger covers(r@, x)]
            covers(r@, x) <==> covers(base@, x) && lo <= x <= hi,
{
    let n = base.len();
    let mut out: Vec<Interval> = Vec::new();
    let mut i: usize = 0;
    while i < n
        invariant
            0 <= i <= n == base@.len(),
            intervals_normalized(base@),
            lo <= hi,
            intervals_normalized(out@),
            forall|x: int|
                #![trigger covers(out@, x)]
                covers(out@, x) <==> covers(base@.subrange(0, i as int), x) && lo <= x <= hi,
            out@.len() > 0 && i < n ==> out@.last().1 + 1 < base@[i as int].0,
        decreases n - i,
    {
        let (u, v) = base[i];
        let ghost prev = base@.subrange(0, i as int);
        assert forall|x: int|
            #![trigger covers(base@.subrange(0, i + 1), x)]
            covers(base@.subrange(0, i + 1), x) <==> covers(prev, x) || u <= x <= v by {
            crate::intervals::lemma_covers_split(base@, 0, i as int, i + 1, x);
            assert(base@.subrange(i as int, i + 1) =~= seq![(u, v)]);
            crate::intervals::lemma_covers_singleton((u, v), x);
        }
        if v >= lo && u <= hi {
            let cu = if u < lo {
                lo
            } else {
                u
            };
            let cv = if v > hi {
                hi
            } else {
                v
            };
            let ghost out0 = out@;
            out.push((cu, cv));
            proof {
                assert(out@ =~= out0.push((cu, cv)));
                assert forall|x: int|
                    #![trigger covers(out@, x)]
                    covers(out@, x) <==> covers(base@.subrange(0, i + 1), x) && lo <= x
                        <= hi by {
                    assert(out@.subrange(0, out@.len() as int) =~= out@);
                    assert(out@.subrange(0, out0.len() as int) =~= out0);
                    assert(out@.subrange(out0.len() as int, out@.len() as int) =~= seq![
                        (cu, cv),
                    ]);
                    crate::intervals::lemma_covers_split(out@, 0, out0.len() as int,
                        out@.len() as int, x);
                    crate::intervals::lemma_covers_singleton((cu, cv), x);
                    assert(covers(out@, x) <==> covers(out0, x) || cu <= x <= cv);
                    assert(covers(out0, x) <==> covers(prev, x) && lo <= x <= hi);
                    assert(covers(base@.subrange(0, i + 1), x) <==> covers(prev, x) || u <= x
                        <= v);
                }
            }
        } else {
            proof {
                assert forall|x: int|
                    #![trigger covers(out@, x)]
                    covers(out@, x) <==> covers(base@.subrange(0, i + 1), x) && lo <= x
                        <= hi by {}
            }
        }
        i += 1;
    }
    assert(base@.subrange(0, n as int) =~= base@);
    out
}

impl CategoryQueryEngine {
    /// A memoized query result, if an identical lookup key was answered
    /// before.
    fn query_cache_get(
        &self,
        mask: CategoryBitMap,
        lo: u32,
        hi: u32,
        inc_ivs: &Vec<Interval>,
        exc_ivs: &Vec<Interval>,
    ) -> (r: Option<Vec<Interval>>)
        requires
            self.wf(),
        ensures
            match r {
                Some(v) => intervals_normalized(v@) && forall|x: int|
                    #![trigger covers(v@, x)]
                    covers(v@, x) <==> ((self.mask_covers(mask, x) && lo <= x <= hi) || covers(
                        inc_ivs@,
                        x,
                    )) && !covers(exc_ivs@, x),
                None => true,
            },
    {
        let n = self.query_cache.len();
        let mut i: usize = 0;
        while i < n
            invariant
                self.wf(),
                0 <= i <= n == self.query_cache@.len(),
            decreases n - i,
        {
            let entry = &self.query_cache[i];
            if entry.0.mask == mask && entry.0.min_codepoint == lo && entry.0.max_codepoint == hi
                && intervals_eq(&entry.0.include_intervals, inc_ivs) && intervals_eq(
                &entry.0.exclude_intervals,
                exc_ivs,
            ) {
                return Some(copy_intervals(&entry.1));
            }
            i += 1;
        }
        None
    }

    /// Remember a query result under its lookup key.
    fn query_cache_put(
        &mut self,
        mask: CategoryBitMap,
        lo: u32,
        hi: u32,
        inc_ivs: &Vec<Interval>,
        exc_ivs: &Vec<Interval>,
        v: &Vec<Interval>,
    )
        requires
            old(self).wf(),
            intervals_normalized(v@),
            forall|x: int|
                #![trigger covers(v@, x)]
                covers(v@, x) <==> ((old(self).mask_covers(mask, x) && lo <= x <= hi) || covers(
                    inc_ivs@,
                    x,
                )) && !covers(exc_ivs@, x),
        ensures
            final(self).wf(),
            Self::same_model(*old(self), *final(self)),
    {
        let key = QueryCacheKey {
            mask,
            min_codepoint: lo,
            max_codepoint: hi,
            include_intervals: copy_intervals(inc_ivs),
            exclude_intervals: copy_intervals(exc_ivs),
        };
        let entry = (key, copy_intervals(v));
        self.query_cache.push(entry);
        proof {
            let oc = old(self).query_cache@;
            assert(self.query_cache@ == oc.push(entry));
            assert(forall|c: UnicodeCategory|
                #[trigger] self.cat_ivs(c) == old(self).cat_ivs(c));
            assert forall|x: int| 0 <= x <= MAX_CODEPOINT implies #[trigger] self.covers_some_cat(
                x,
            ) by {
                assert(old(self).covers_some_cat(x));
                let c = choose|c: UnicodeCategory| covers(#[trigger] old(self).cat_ivs(c), x);
                assert(covers(self.cat_ivs(c), x));
            }
            assert forall|e: int, x: int|
                #![trigger covers(self.union_cache@[e].1@, x)]
                0 <= e < self.union_cache@.len() implies (covers(self.union_cache@[e].1@, x)
                <==> self.mask_covers(self.union_cache@[e].0, x)) by {
                assert(self.union_cache@[e] == old(self).union_cache@[e]);
                lemma_mask_covers_same(*self, *old(self), self.union_cache@[e].0, x);
                assert(covers(old(self).union_cache@[e].1@, x) <==> old(self).mask_covers(
                    old(self).union_cache@[e].0,
                    x,
                ));
            }
            assert forall|e: int, x: int|
                #![trigger covers(self.query_cache@[e].1@, x)]
                0 <= e < self.query_cache@.len() implies (covers(self.query_cache@[e].1@, x)
                <==> self.qkey_covers(self.query_cache@[e].0, x)) by {
                lemma_mask_covers_same(*self, *old(self), self.query_cache@[e].0.mask, x);
                if e < oc.len() {
                    assert(self.query_cache@[e] == oc[e]);
                    assert(covers(oc[e].1@, x) <==> old(self).qkey_covers(oc[e].0, x));
                } else {
                    assert(self.query_cache@[e] == entry);
                    assert(entry.1@ == v@);
                    assert(entry.0.include_intervals@ == inc_ivs@);
                    assert(entry.0.exclude_intervals@ == exc_ivs@);
                }
            }
            assert forall|e: int|
                0 <= e < self.query_cache@.len() implies intervals_normalized(
                (#[trigger] self.query_cache@[e]).1@,
            ) by {
                if e < oc.len() {
                    assert(self.query_cache@[e] == oc[e]);
                } else {
                    assert(self.query_cache@[e] == entry);
                }
            }
        }
    }



    /// A list covering what some key category covers, covers what the
    /// key's member set covers.
    proof fn lemma_key_coverage_to_mask(
        a: CategoryQueryEngine,
        b: CategoryQueryEngine,
        key: Seq<UnicodeCategory>,
        kmask: CategoryBitMap,
        base: Seq<Interval>,
    )
        requires
            forall|c: UnicodeCategory| #[trigger] a.cat_ivs(c) == b.cat_ivs(c),
            forall|c: UnicodeCategory| key.contains(c) <==> kmask.has(c),
            forall|x: int|
                #![trigger covers(base, x)]
                covers(base, x) <==> exists|i: int|
                    0 <= i < key.len() && covers(a.cat_ivs(#[trigger] key[i]), x),
        ensures
            forall|x: int| #![trigger covers(base, x)] covers(base, x) <==> b.mask_covers(kmask, x),
    {
        assert forall|x: int|
            #![trigger covers(base, x)]
            covers(base, x) <==> b.mask_covers(kmask, x) by {
            if covers(base, x) {
                let i = choose|i: int|
                    0 <= i < key.len() && covers(a.cat_ivs(#[trigger] key[i]), x);
                assert(key.contains(key[i]));
                assert(kmask.has(key[i]));
                assert(covers(b.cat_ivs(key[i]), x));
            }
            if b.mask_covers(kmask, x) {
                let c = choose|c: UnicodeCategory| kmask.has(c) && covers(#[trigger] b.cat_ivs(c), x);
                assert(key.contains(c));
                let i = choose|i: int| 0 <= i < key.len() && key[i] == c;
                assert(covers(a.cat_ivs(key[i]), x));
            }
        }
    }

    /// Resolve one validated query: look the key up in the query cache,
    /// and on a miss compute the base union, clip it to the bounds, fold
    /// in the include intervals, subtract the exclude intervals, and
    /// remember the result.
    #[verifier::rlimit(100)]
    #[verifier::spinoff_prover]
    fn query_cached(
        &mut self,
        kmask: CategoryBitMap,
        excl_mask: &CategoryBitMap,
        incl_mask: Option<CategoryBitMap>,
        lo: u32,
        hi: u32,
        inc_ivs: &Vec<Interval>,
        exc_ivs: &Vec<Interval>,
    ) -> (r: Vec<Interval>)
        requires
            old(self).wf(),
            lo <= hi,
            intervals_normalized(inc_ivs@),
            intervals_normalized(exc_ivs@),
            forall|c: UnicodeCategory| kmask.has(c) <==> spec_key_has(*excl_mask, incl_mask, c),
        ensures
            final(self).wf(),
            Self::same_model(*old(self), *final(self)),
            intervals_normalized(r@),
            forall|x: int|
                #![trigger covers(r@, x)]
                covers(r@, x) <==> ((old(self).mask_covers(kmask, x) && lo <= x <= hi) || covers(
                    inc_ivs@,
                    x,
                )) && !covers(exc_ivs@, x),
    {
        match self.query_cache_get(kmask, lo, hi, inc_ivs, exc_ivs) {
            Option::Some(v) => {
                return v;
            },
            Option::None => {},
        }
        let key = self.category_key(excl_mask, (match &incl_mask {
            Option::Some(m) => Some(m),
            Option::None => None,
        }));
        let base = self.query_for_key(&key);
        proof {
            Self::lemma_key_coverage_to_mask(*old(self), *self, key@, kmask, base@);
        }
        let clipped = clip_intervals(&base, lo, hi);
        let inc_copy = copy_intervals(inc_ivs);
        proof {
            crate::intervals::lemma_normalized_is_ordered(clipped@);
            crate::intervals::lemma_normalized_is_ordered(inc_copy@);
        }
        let with_inc = union_intervals(clipped, inc_copy);
        proof {
            crate::intervals::lemma_normalized_is_ordered(with_inc@);
            crate::intervals::lemma_normalized_is_ordered(exc_ivs@);
        }
        let result = subtract_intervals(with_inc, exc_ivs.as_slice());
        proof {
            assert forall|x: int|
                #![trigger covers(result@, x)]
                covers(result@, x) <==> ((self.mask_covers(kmask, x) && lo <= x <= hi) || covers(
                    inc_ivs@,
                    x,
                )) && !covers(exc_ivs@, x) by {}
        }
        self.query_cache_put(kmask, lo, hi, inc_ivs, exc_ivs, &result);
        let ghost pre = *old(self);
        proof {
            assert forall|x: int|
                #![trigger covers(result@, x)]
                covers(result@, x) <==> ((pre.mask_covers(kmask, x) && lo <= x <= hi) || covers(
                    inc_ivs@,
                    x,
                )) && !covers(exc_ivs@, x) by {
                lemma_mask_covers_same(*self, pre, kmask, x);
            }
        }
        result
    }

    /// The interval list covering exactly the codepoints that satisfy the
    /// query: in a selected category, within the codepoint bounds, or
    /// among the include characters; and not among the exclude
    /// characters. Category names are validated first, exclusions before
    /// inclusions; then the bounds are checked after defaulting.
    #[verifier::rlimit(100)]
    pub fn query<'a>(
        &mut self,
        exclude_categories: Option<&[&'a str]>,
        include_categories: Option<&[&'a str]>,
        min_codepoint: Option<u32>,
        max_codepoint: Option<u32>,
        include_characters: Option<&str>,
        exclude_characters: Option<&str>,
    ) -> (r: Result<Vec<Interval>, Error<'a>>)
        requires
            old(self).wf(),
        ensures
            final(self).wf(),
            Self::same_model(*old(self), *final(self)),
            match r {
                Result::Ok(out) => {
                    &&& names_all_valid(spec_names_of(exclude_categories))
                    &&& names_all_valid(spec_names_of(include_categories))
                    &&& spec_min_of(min_codepoint) <= spec_max_of(max_codepoint)
                    &&& intervals_normalized(out@)
                    &&& forall|x: int|
                        #![trigger covers(out@, x)]
                        covers(out@, x) <==> (((exists|c: UnicodeCategory|
                            spec_query_key_has(
                                spec_names_of(exclude_categories),
                                spec_names_opt(include_categories),
                                c,
                            ) && covers(#[trigger] old(self).cat_ivs(c), x)) && spec_min_of(
                            min_codepoint,
                        ) <= x <= spec_max_of(max_codepoint)) || char_in(
                            spec_chars_of(include_characters),
                            x,
                        )) && !char_in(spec_chars_of(exclude_characters), x)
                },
                Result::Err(e) => match e {
                    Error::InvalidCategory(t) => {
                        ||| exists|i: int|
                            #[trigger] spec_first_invalid(spec_names_of(exclude_categories), i)
                                && t == spec_names_of(exclude_categories)[i]
                        ||| names_all_valid(spec_names_of(exclude_categories)) && exists|i: int|
                            #[trigger] spec_first_invalid(spec_names_of(include_categories), i)
                                && t == spec_names_of(include_categories)[i]
                    },
                    Error::InvalidCodepoints(lo, hi) => names_all_valid(
                        spec_names_of(exclude_categories),
                    ) && names_all_valid(spec_names_of(include_categories)) && lo == spec_min_of(
                        min_codepoint,
                    ) && hi == spec_max_of(max_codepoint) && lo > hi,
                },
            },
    {
        let excl_mask = match exclude_categories {
            Option::Some(names) => match mask_from_names(names) {
                Result::Ok(m) => m,
                Result::Err(e) => {
                    proof {
                        match &e {
                            Error::InvalidCategory(t) => {
                                let i = choose|i: int|
                                    #[trigger] spec_first_invalid(names@, i) && *t == names@[i];
                                assert(spec_names_of(exclude_categories) == names@);
                                assert(spec_first_invalid(spec_names_of(exclude_categories), i));
                            },
                            Error::InvalidCodepoints(_, _) => {},
                        }
                    }
                    return Err(e);
                },
            },
            Option::None => CategoryBitMap::new(),
        };
        let incl_mask: Option<CategoryBitMap> = match include_categories {
            Option::Some(names) => match mask_from_names(names) {
                Result::Ok(m) => Some(m),
                Result::Err(e) => {
                    proof {
                        match &e {
                            Error::InvalidCategory(t) => {
                                let i = choose|i: int|
                                    #[trigger] spec_first_invalid(names@, i) && *t == names@[i];
                                assert(spec_names_of(include_categories) == names@);
                                assert(spec_first_invalid(spec_names_of(include_categories), i));
                            },
                            Error::InvalidCodepoints(_, _) => {},
                        }
                    }
                    return Err(e);
                },
            },
            Option::None => None,
        };
        let lo = match min_codepoint {
            Option::Some(v) => v,
            Option::None => 0,
        };
        let hi = match max_codepoint {
            Option::Some(v) => v,
            Option::None => MAX_CODEPOINT,
        };
        if lo > hi {
            return Err(Error::InvalidCodepoints(lo, hi));
        }
        let base_mask = match incl_mask {
            Option::Some(m) => m,
            Option::None => CategoryBitMap::full(),
        };
        let kmask = base_mask.difference(excl_mask);
        proof {
            assert forall|c: UnicodeCategory|
                kmask.has(c) <==> spec_query_key_has(
                    spec_names_of(exclude_categories),
                    spec_names_opt(include_categories),
                    c,
                ) by {}
        }
        let inc_ivs = intervals(match include_characters {
            Option::Some(s) => s,
            Option::None => "",
        });
        let exc_ivs = intervals(match exclude_characters {
            Option::Some(s) => s,
            Option::None => "",
        });
        proof {
            reveal_strlit("");
            assert(""@ =~= Seq::<char>::empty());
            assert forall|x: int|
                covers(inc_ivs@, x) <==> char_in(spec_chars_of(include_characters), x) by {}
            assert forall|x: int|
                covers(exc_ivs@, x) <==> char_in(spec_chars_of(exclude_characters), x) by {}
        }
        let result = self.query_cached(kmask, &excl_mask, incl_mask, lo, hi, &inc_ivs, &exc_ivs);
        proof {
            assert forall|x: int|
                #![trigger covers(result@, x)]
                covers(result@, x) <==> (((exists|c: UnicodeCategory|
                    spec_query_key_has(
                        spec_names_of(exclude_categories),
                        spec_names_opt(include_categories),
                        c,
                    ) && covers(#[trigger] old(self).cat_ivs(c), x)) && lo <= x <= hi) || char_in(
                    spec_chars_of(include_characters),
                    x,
                )) && !char_in(spec_chars_of(exclude_characters), x) by {
                if old(self).mask_covers(kmask, x) {
                    let c = choose|c: UnicodeCategory|
                        kmask.has(c) && covers(#[trigger] old(self).cat_ivs(c), x);
                    assert(spec_query_key_has(
                        spec_names_of(exclude_categories),
                        spec_names_opt(include_categories),
                        c,
                    ) && covers(old(self).cat_ivs(c), x));
                }
                if exists|c: UnicodeCategory|
                    spec_query_key_has(
                        spec_names_of(exclude_categories),
                        spec_names_opt(include_categories),
                        c,
                    ) && covers(#[trigger] old(self).cat_ivs(c), x) {
                    let c = choose|c: UnicodeCategory|
                        spec_query_key_has(
                            spec_names_of(exclude_categories),
                            spec_names_opt(include_categories),
                            c,
                        ) && covers(#[trigger] old(self).cat_ivs(c), x);
                    assert(kmask.has(c));
                    assert(old(self).mask_covers(kmask, x));
                }
            }
        }
        Ok(result)
    }

    /// Expand one-letter major-class designations and validate two-letter
    /// codes: the input names are first sorted and deduplicated, then each
    /// major-class letter expands to all canonical-order categories of
    /// that class, each valid code passes through, and the first invalid
    /// token (in sorted order) fails the whole call.
    pub fn as_general_categories<'a>(&self, categories: &[&'a str]) -> (r: Result<
        Vec<&'static str>,
        Error<'a>,
    >)
        requires
            self.wf(),
        ensures
            match r {
                Result::Ok(out) => exists|u: Seq<Seq<char>>|
                    {
                        &&& #[trigger] sorted_strict_names(u)
                        &&& forall|s: Seq<char>| u.contains(s) <==> contains_name(categories@, s)
                        &&& forall|k: int| 0 <= k < u.len() ==> spec_token_valid(#[trigger] u[k])
                        &&& out@.len() == spec_expansion(self.cats_order(), u).len()
                        &&& forall|p: int|
                            0 <= p < out@.len() ==> (#[trigger] out@[p])@ == spec_category_name(
                                spec_expansion(self.cats_order(), u)[p],
                            )
                    },
                Result::Err(e) => e matches Error::InvalidCategory(t) && exists|
                    u: Seq<Seq<char>>,
                    i: int,
                |
                    #![trigger sorted_strict_names(u), u[i]]
                    {
                        &&& sorted_strict_names(u)
                        &&& forall|s: Seq<char>| u.contains(s) <==> contains_name(categories@, s)
                        &&& 0 <= i < u.len()
                        &&& !spec_token_valid(u[i])
                        &&& forall|k: int| 0 <= k < i ==> spec_token_valid(#[trigger] u[k])
                        &&& t@ == u[i]
                    },
            },
    {
        proof {
            self.lemma_wf_facts();
        }
        let sorted = sort_dedup_names(categories);
        let ghost u = views_of(sorted@);
        proof {
            assert forall|s: Seq<char>| u.contains(s) <==> contains_name(categories@, s) by {
                if u.contains(s) {
                    let w = choose|w: int| 0 <= w < u.len() && u[w] == s;
                    assert((sorted@[w])@ == s);
                    assert(contains_name(sorted@, s));
                }
                if contains_name(categories@, s) {
                    assert(contains_name(sorted@, s));
                    let w = choose|w: int| 0 <= w < sorted@.len() && (#[trigger] sorted@[w])@ == s;
                    assert(u[w] == s);
                }
            }
        }
        let order = &self.categories_order;
        let m = sorted.len();
        let mut out: Vec<&'static str> = Vec::new();
        let mut k: usize = 0;
        while k < m
            invariant
                self.wf(),
                0 <= k <= m == sorted@.len(),
                u == views_of(sorted@),
                sorted_strict_names(u),
                forall|s: Seq<char>| u.contains(s) <==> contains_name(categories@, s),
                order@ == self.cats_order(),
                order@.len() == 30,
                forall|j: int| 0 <= j < k ==> spec_token_valid(#[trigger] u[j]),
                out@.len() == spec_expansion(order@, u.take(k as int)).len(),
                forall|p: int|
                    0 <= p < out@.len() ==> (#[trigger] out@[p])@ == spec_category_name(
                        spec_expansion(order@, u.take(k as int))[p],
                    ),
            decreases m - k,
        {
            let name = sorted[k];
            proof {
                assert(u[k as int] == name@);
            }
            let ghost exp_pre = spec_expansion(order@, u.take(k as int));
            let nlen = name.unicode_len();
            let mut handled = false;
            if nlen == 1 {
                let letter = name.get_char(0);
                let is_major = match letter {
                    'L' | 'M' | 'N' | 'P' | 'S' | 'Z' | 'C' => true,
                    _ => false,
                };
                if !is_major {
                    proof {
                        assert(name@.len() == 1);
                        assert(!spec_is_major_letter(name@[0]));
                        assert forall|c: UnicodeCategory| spec_category_name(c) != name@ by {
                            assert(spec_category_name(c).len() == 2);
                        }
                        assert(!spec_token_valid(u[k as int]));
                    }
                    return Err(Error::InvalidCategory(name));
                }
                // expand the major class over the canonical order
                let ghost pred = major_pred(letter);
                let mut j: usize = 0;
                proof {
                    assert(order@.subrange(0, 0) =~= Seq::<UnicodeCategory>::empty());
                    reveal(Seq::filter);
                    assert(order@.subrange(0, 0).filter(pred) =~= Seq::<UnicodeCategory>::empty());
                }
                while j < 30
                    invariant
                        0 <= j <= 30,
                        order@.len() == 30,
                        pred == major_pred(letter),
                        out@.len() == exp_pre.len() + order@.subrange(0, j as int).filter(
                            pred,
                        ).len(),
                        forall|p: int|
                            0 <= p < exp_pre.len() ==> (#[trigger] out@[p])@ == spec_category_name(
                                exp_pre[p],
                            ),
                        forall|p: int|
                            exp_pre.len() <= p < out@.len() ==> (#[trigger] out@[p])@
                                == spec_category_name(
                                order@.subrange(0, j as int).filter(pred)[p - exp_pre.len()],
                            ),
                    decreases 30 - j,
                {
                    let c = order[j];
                    let ghost fpre = order@.subrange(0, j as int).filter(pred);
                    proof {
                        reveal(Seq::filter);
                        assert(order@.subrange(0, j + 1).drop_last() =~= order@.subrange(
                            0,
                            j as int,
                        ));
                        assert(order@.subrange(0, j + 1).last() == c);
                        assert(order@.subrange(0, j + 1).filter(pred) == if pred(c) {
                            fpre.push(c)
                        } else {
                            fpre
                        });
                    }
                    if category_major_letter(c) == letter {
                        proof {
                            assert(pred(c));
                        }
                        out.push(c.as_str());
                    } else {
                        proof {
                            assert(!pred(c));
                        }
                    }
                    j += 1;
                }
                proof {
                    assert(order@.subrange(0, 30) =~= order@);
                    assert(spec_expand_one(order@, name@) == order@.filter(pred));
                    assert(spec_token_valid(u[k as int]));
                }
                handled = true;
            } else {
                match UnicodeCategory::from_name(name) {
                    Option::Some(c) => {
                        proof {
                            assert(spec_expand_one(order@, name@) =~= seq![c]);
                            assert(spec_token_valid(u[k as int]));
                        }
                        out.push(c.as_str());
                        handled = true;
                    },
                    Option::None => {
                        proof {
                            assert(name@.len() != 1);
                            assert(!spec_token_valid(u[k as int]));
                        }
                        return Err(Error::InvalidCategory(name));
                    },
                }
            }
            proof {
                assert(u.take(k + 1).drop_last() =~= u.take(k as int));
                assert(u.take(k + 1).last() == u[k as int]);
                assert(spec_expansion(order@, u.take(k + 1)) == exp_pre + spec_expand_one(
                    order@,
                    name@,
                ));
                assert forall|p: int|
                    0 <= p < out@.len() implies (#[trigger] out@[p])@ == spec_category_name(
                    spec_expansion(order@, u.take(k + 1))[p],
                ) by {
                    if p < exp_pre.len() {
                        assert(spec_expansion(order@, u.take(k + 1))[p] == exp_pre[p]);
                    } else {
                        assert(spec_expansion(order@, u.take(k + 1))[p] == spec_expand_one(
                            order@,
                            name@,
                        )[p - exp_pre.len()]);
                    }
                }
            }
            k += 1;
        }
        proof {
            assert(u.take(m as int) =~= u);
        }
        Ok(out)
    }
}

} // verus!
