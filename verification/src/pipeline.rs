//! What holds of a tree between the passes of a scan, and what every
//! aggregation pass keeps: children whose sizes and counts stay within those
//! of their directory, and directories that hold exactly their children.

use vstd::prelude::*;
use crate::aggregate::{
    covered, coverage_fits, coverage_split, depth_fits, depth_limited, descend_size, effective_fn,
    kept_count, coverage_target, lemma_coverage_keeps_totals, lemma_depth_keeps_totals,
    lemma_threshold_keeps_totals, pruned_from,
    regrouped, same_header, small_of, large_of, sorted_with, sums_fit, thresholded, SizeText,
};
use crate::sort::{
    is_rearrangement, keeps_ties_in_order, lemma_sum_le, stably_sorted_desc, sum_of,
};
use crate::topology::{
    counted_from, field_sum, forest_total, is_walked, lemma_counted_directory_sums_children,
    lemma_sized_directory_sums_children, own_fn, own_value, sized_from, subtree_total,
    TopologyNode,
};

verus! {

/// No node of the tree is an aggregation bucket.
pub open spec fn no_buckets(n: TopologyNode) -> bool
    decreases n,
{
    &&& !n.is_aggregated
    &&& forall|i: int| 0 <= i < n.children.len() ==> no_buckets(#[trigger] n.children@[i])
}

/// In every directory the children's sizes and file counts add up to at most
/// the directory's own, and their directory counts to less than its own.
pub open spec fn within_parent(n: TopologyNode) -> bool
    decreases n,
{
    if n.is_dir {
        &&& field_sum(n.children@, 0) <= n.size
        &&& field_sum(n.children@, 1) <= n.file_count
        &&& field_sum(n.children@, 2) < n.dir_count
        &&& forall|i: int| 0 <= i < n.children.len() ==> within_parent(#[trigger] n.children@[i])
    } else {
        true
    }
}

proof fn lemma_forest_total_matches(b: Seq<TopologyNode>, a: Seq<TopologyNode>, w: nat)
    requires
        a.len() == b.len(),
        forall|i: int| 0 <= i < a.len() ==> subtree_total(#[trigger] a[i], w) == subtree_total(b[i], w),
    ensures
        forest_total(a, w) == forest_total(b, w),
    decreases b.len(),
{
    if b.len() > 0 {
        let n = b.len() - 1;
        lemma_forest_total_matches(b.drop_last(), a.drop_last(), w);
        assert(subtree_total(a[n], w) == subtree_total(b[n], w));
    }
}

/// Computing sizes leaves the file and directory totals as they were.
pub proof fn lemma_sizing_keeps_count_totals(before: TopologyNode, after: TopologyNode, w: nat)
    requires
        sized_from(before, after),
        w == 1 || w == 2,
    ensures
        subtree_total(after, w) == subtree_total(before, w),
    decreases before,
{
    if is_walked(before) {
        assert forall|i: int| 0 <= i < after.children.len() implies subtree_total(#[trigger] after.children@[i], w)
            == subtree_total(before.children@[i], w) by {
            lemma_sizing_keeps_count_totals(before.children@[i], after.children@[i], w);
        }
        lemma_forest_total_matches(before.children@, after.children@, w);
    }
}

/// A tree without buckets whose sizes and then counts have been computed has
/// every directory holding exactly its children (and itself, for directories).
pub proof fn lemma_computed_within_parent(b: TopologyNode, a1: TopologyNode, a2: TopologyNode)
    requires
        no_buckets(b),
        sized_from(b, a1),
        counted_from(a1, a2),
    ensures
        within_parent(a2),
        no_buckets(a2),
    decreases b,
{
    if b.is_dir {
        lemma_sized_directory_sums_children(b, a1);
        lemma_counted_directory_sums_children(a1, a2);
        assert forall|i: int| 0 <= i < a2.children.len() implies own_fn(0)(#[trigger] a2.children@[i])
            == own_fn(0)(a1.children@[i]) by {
            assert(counted_from(a1.children@[i], a2.children@[i]));
        }
        crate::sort::lemma_sum_pointwise(a2.children@, a1.children@, own_fn(0));
        assert forall|i: int| 0 <= i < a2.children.len() implies within_parent(#[trigger] a2.children@[i])
            && no_buckets(a2.children@[i]) by {
            assert(no_buckets(b.children@[i]));
            assert(sized_from(b.children@[i], a1.children@[i]));
            assert(counted_from(a1.children@[i], a2.children@[i]));
            lemma_computed_within_parent(b.children@[i], a1.children@[i], a2.children@[i]);
        }
    } else {
        assert(a1.children == b.children);
        assert(a2.children == a1.children);
        assert forall|i: int| 0 <= i < a2.children.len() implies no_buckets(#[trigger] a2.children@[i]) by {
            assert(no_buckets(b.children@[i]));
        }
    }
}

/// Totals within their parents fit the sums threshold aggregation computes.
pub proof fn lemma_within_parent_sums_fit(n: TopologyNode)
    requires
        within_parent(n),
    ensures
        sums_fit(n),
    decreases n,
{
    if is_walked(n) {
        assert forall|i: int| 0 <= i < n.children.len() implies sums_fit(#[trigger] n.children@[i]) by {
            lemma_within_parent_sums_fit(n.children@[i]);
        }
    }
}

proof fn lemma_effective_at_most_own(s: Seq<TopologyNode>, w: nat, m: int)
    requires
        w <= 2,
        forall|i: int| 0 <= i < s.len() ==> within_parent(#[trigger] s[i]),
    ensures
        sum_of(s, effective_fn(w, m)) <= sum_of(s, own_fn(w)),
{
    assert forall|i: int| 0 <= i < s.len() implies effective_fn(w, m)(#[trigger] s[i]) <= own_fn(w)(s[i]) by {
        assert(within_parent(s[i]));
    }
    lemma_sum_le(s, effective_fn(w, m), own_fn(w));
}

/// Totals within their parents fit the sums coverage aggregation computes.
pub proof fn lemma_within_parent_coverage_fits(n: TopologyNode, root_size: u64, min_pct: u32)
    requires
        within_parent(n),
    ensures
        coverage_fits(n, root_size, min_pct),
    decreases n,
{
    if is_walked(n) && n.size != 0 {
        let m = descend_size(root_size, min_pct);
        lemma_effective_at_most_own(n.children@, 0, m);
        lemma_effective_at_most_own(n.children@, 1, m);
        lemma_effective_at_most_own(n.children@, 2, m);
        crate::aggregate::lemma_own_nonneg(0);
        crate::sort::lemma_sum_nonneg(n.children@, effective_fn(0, m));
        assert forall|i: int| 0 <= i < n.children.len() implies {
            let c = #[trigger] n.children@[i];
            if c.size >= m {
                coverage_fits(c, root_size, min_pct)
            } else {
                c.is_dir && c.children.len() > 0 ==> field_sum(c.children@, 1) <= u64::MAX
                    && field_sum(c.children@, 2) < u64::MAX
            }
        } by {
            lemma_within_parent_coverage_fits(n.children@[i], root_size, min_pct);
        }
    }
}

/// Totals within their parents fit the sums the depth limit computes.
pub proof fn lemma_within_parent_depth_fits(n: TopologyNode, max_depth: int, depth: int)
    requires
        within_parent(n),
    ensures
        depth_fits(n, max_depth, depth),
    decreases n,
{
    if is_walked(n) && !(depth >= max_depth && n.children.len() > 0) {
        assert forall|i: int| 0 <= i < n.children.len() implies depth_fits(#[trigger] n.children@[i], max_depth, depth + 1) by {
            lemma_within_parent_depth_fits(n.children@[i], max_depth, depth + 1);
        }
    }
}

pub open spec fn occurs_in(s: Seq<TopologyNode>, x: TopologyNode) -> bool {
    exists|i: int| 0 <= i < s.len() && #[trigger] s[i] == x
}

proof fn lemma_large_from(s: Seq<TopologyNode>, t: u64)
    ensures
        forall|j: int| 0 <= j < large_of(s, t).len() ==> #[trigger] occurs_in(s, large_of(s, t)[j]),
    decreases s.len(),
{
    if s.len() > 0 {
        lemma_large_from(s.drop_last(), t);
        let prev = large_of(s.drop_last(), t);
        assert forall|j: int| 0 <= j < large_of(s, t).len() implies #[trigger] occurs_in(s, large_of(s, t)[j]) by {
            if j < prev.len() {
                assert(large_of(s, t)[j] == prev[j]);
                assert(occurs_in(s.drop_last(), prev[j]));
                let i = choose|i: int| 0 <= i < s.drop_last().len() && #[trigger] s.drop_last()[i] == prev[j];
                assert(s[i] == prev[j]);
            } else {
                assert(large_of(s, t)[j] == s[s.len() - 1]);
            }
        }
    }
}

/// Threshold aggregation keeps every directory's totals within its own.
pub proof fn lemma_threshold_within_parent(b: TopologyNode, a: TopologyNode, t: u64, style: SizeText)
    requires
        within_parent(b),
        thresholded(b, a, t, style),
    ensures
        within_parent(a),
    decreases b,
{
    if is_walked(b) {
        lemma_threshold_keeps_totals(b, a, t, style, 0);
        lemma_threshold_keeps_totals(b, a, t, style, 1);
        lemma_threshold_keeps_totals(b, a, t, style, 2);
        let (mid, grouped) = choose|mid: Seq<TopologyNode>, grouped: Seq<TopologyNode>|
            {
                &&& mid.len() == b.children.len()
                &&& forall|i: int|
                    0 <= i < b.children.len() ==> thresholded(b.children@[i], #[trigger] mid[i], t, style)
                &&& regrouped(mid, grouped, t, style)
                &&& stably_sorted_desc(grouped, a.children@)
            };
        let l = large_of(mid, t);
        lemma_large_from(mid, t);
        assert forall|j: int| 0 <= j < grouped.len() implies within_parent(#[trigger] grouped[j]) by {
            if j < l.len() {
                assert(grouped[j] == grouped.take(l.len() as int)[j]);
                assert(occurs_in(mid, l[j]));
                let i = choose|i: int| 0 <= i < mid.len() && #[trigger] mid[i] == l[j];
                lemma_threshold_within_parent(b.children@[i], mid[i], t, style);
            }
        }
        let p = choose|p: Seq<int>| is_rearrangement(grouped, a.children@, p) && keeps_ties_in_order(a.children@, p);
        assert forall|k: int| 0 <= k < a.children.len() implies within_parent(#[trigger] a.children@[k]) by {
            assert(a.children@[k] == grouped[p[k]]);
        }
    }
}

/// Coverage aggregation keeps every directory's totals within its own.
pub proof fn lemma_coverage_within_parent(
    b: TopologyNode,
    a: TopologyNode,
    basis_points: u64,
    max_items: usize,
    root_size: u64,
    min_pct: u32,
)
    requires
        within_parent(b),
        covered(b, a, basis_points, max_items, root_size, min_pct),
    ensures
        within_parent(a),
    decreases b,
{
    if is_walked(b) && b.size != 0 {
        let m = descend_size(root_size, min_pct);
        lemma_coverage_keeps_totals(b, a, basis_points, max_items, root_size, min_pct, 0);
        lemma_coverage_keeps_totals(b, a, basis_points, max_items, root_size, min_pct, 1);
        lemma_coverage_keeps_totals(b, a, basis_points, max_items, root_size, min_pct, 2);
        lemma_effective_at_most_own(b.children@, 1, m);
        lemma_effective_at_most_own(b.children@, 2, m);
        let kids = b.children@;
        let (p, mid) = choose|p: Seq<int>, mid: Seq<TopologyNode>|
            {
                &&& sorted_with(kids, Seq::new(p.len(), |k: int| kids[p[k]]), p)
                &&& mid.len() == p.len()
                &&& forall|k: int|
                    0 <= k < p.len() ==> if kids[p[k]].size >= m {
                        covered(kids[p[k]], #[trigger] mid[k], basis_points, max_items, root_size, min_pct)
                    } else {
                        pruned_from(kids[p[k]], mid[k])
                    }
                &&& coverage_split(mid, a.children@, b.size, basis_points, max_items)
            };
        assert forall|k: int| 0 <= k < mid.len() implies within_parent(#[trigger] mid[k]) by {
            assert(0 <= p[k] < kids.len());
            if kids[p[k]].size >= m {
                lemma_coverage_within_parent(kids[p[k]], mid[k], basis_points, max_items, root_size, min_pct);
            } else if kids[p[k]].is_dir && kids[p[k]].children.len() > 0 {
                assert(mid[k].children@.len() == 0);
                crate::aggregate::lemma_own_nonneg(2);
                crate::sort::lemma_sum_nonneg(kids[p[k]].children@, own_fn(2));
                assert(field_sum(mid[k].children@, 0) == 0);
                assert(field_sum(mid[k].children@, 1) == 0);
                assert(field_sum(mid[k].children@, 2) == 0);
            } else {
                assert(mid[k] == kids[p[k]]);
            }
        }
        let kc = kept_count(mid, coverage_target(b.size, basis_points), max_items as int);
        assert forall|j: int| 0 <= j < a.children.len() implies within_parent(#[trigger] a.children@[j]) by {
            if kc < mid.len() {
                if j < kc {
                    assert(a.children@[j] == a.children@.take(kc)[j]);
                    assert(a.children@[j] == mid[j]);
                }
            }
        }
    }
}

/// Every directory shown with children holds exactly them: their sizes and
/// file counts add up to its own, and their directory counts to its own
/// less one (itself).
pub open spec fn adds_up(n: TopologyNode) -> bool
    decreases n,
{
    if n.is_dir && n.children.len() > 0 {
        &&& field_sum(n.children@, 0) == n.size
        &&& field_sum(n.children@, 1) == n.file_count
        &&& field_sum(n.children@, 2) + 1 == n.dir_count
        &&& forall|i: int| 0 <= i < n.children.len() ==> adds_up(#[trigger] n.children@[i])
    } else {
        true
    }
}

/// Once sizes and then counts are computed on a tree without buckets, every
/// directory adds up.
pub proof fn lemma_computed_adds_up(b: TopologyNode, a1: TopologyNode, a2: TopologyNode)
    requires
        no_buckets(b),
        sized_from(b, a1),
        counted_from(a1, a2),
    ensures
        adds_up(a2),
    decreases b,
{
    if b.is_dir {
        lemma_sized_directory_sums_children(b, a1);
        lemma_counted_directory_sums_children(a1, a2);
        assert forall|i: int| 0 <= i < a2.children.len() implies own_fn(0)(#[trigger] a2.children@[i])
            == own_fn(0)(a1.children@[i]) by {
            assert(counted_from(a1.children@[i], a2.children@[i]));
        }
        crate::sort::lemma_sum_pointwise(a2.children@, a1.children@, own_fn(0));
        assert forall|i: int| 0 <= i < a2.children.len() implies adds_up(#[trigger] a2.children@[i]) by {
            assert(no_buckets(b.children@[i]));
            assert(sized_from(b.children@[i], a1.children@[i]));
            assert(counted_from(a1.children@[i], a2.children@[i]));
            lemma_computed_adds_up(b.children@[i], a1.children@[i], a2.children@[i]);
        }
    }
}

/// Threshold aggregation keeps every directory adding up.
pub proof fn lemma_threshold_adds_up(b: TopologyNode, a: TopologyNode, t: u64, style: SizeText)
    requires
        adds_up(b),
        thresholded(b, a, t, style),
    ensures
        adds_up(a),
    decreases b,
{
    if is_walked(b) {
        lemma_threshold_keeps_totals(b, a, t, style, 0);
        lemma_threshold_keeps_totals(b, a, t, style, 1);
        lemma_threshold_keeps_totals(b, a, t, style, 2);
        let (mid, grouped) = choose|mid: Seq<TopologyNode>, grouped: Seq<TopologyNode>|
            {
                &&& mid.len() == b.children.len()
                &&& forall|i: int|
                    0 <= i < b.children.len() ==> thresholded(b.children@[i], #[trigger] mid[i], t, style)
                &&& regrouped(mid, grouped, t, style)
                &&& stably_sorted_desc(grouped, a.children@)
            };
        let l = large_of(mid, t);
        lemma_large_from(mid, t);
        assert forall|j: int| 0 <= j < grouped.len() implies adds_up(#[trigger] grouped[j]) by {
            if j < l.len() {
                assert(grouped[j] == grouped.take(l.len() as int)[j]);
                assert(occurs_in(mid, l[j]));
                let i = choose|i: int| 0 <= i < mid.len() && #[trigger] mid[i] == l[j];
                lemma_threshold_adds_up(b.children@[i], mid[i], t, style);
            }
        }
        let p = choose|p: Seq<int>| is_rearrangement(grouped, a.children@, p) && keeps_ties_in_order(a.children@, p);
        assert forall|k: int| 0 <= k < a.children.len() implies adds_up(#[trigger] a.children@[k]) by {
            assert(a.children@[k] == grouped[p[k]]);
        }
        if b.children.len() == 0 {
            assert(mid.len() == 0);
            assert(large_of(mid, t).len() == 0);
            assert(small_of(mid, t).len() == 0);
            assert(grouped.len() == 0);
        }
    }
}

proof fn lemma_effective_is_own(s: Seq<TopologyNode>, w: nat, m: int)
    requires
        w <= 2,
        forall|i: int| 0 <= i < s.len() ==> adds_up(#[trigger] s[i]),
    ensures
        sum_of(s, effective_fn(w, m)) == sum_of(s, own_fn(w)),
{
    assert forall|i: int| 0 <= i < s.len() implies effective_fn(w, m)(#[trigger] s[i]) == own_fn(w)(s[i]) by {
        assert(adds_up(s[i]));
    }
    crate::sort::lemma_sum_pointwise(s, s, own_fn(w));
    crate::sort::lemma_sum_matching(s, effective_fn(w, m), s, own_fn(w));
}

/// Coverage aggregation keeps every directory adding up: a pruned directory
/// is shown without children, and the counts it takes from them are its own.
pub proof fn lemma_coverage_adds_up(
    b: TopologyNode,
    a: TopologyNode,
    basis_points: u64,
    max_items: usize,
    root_size: u64,
    min_pct: u32,
)
    requires
        adds_up(b),
        covered(b, a, basis_points, max_items, root_size, min_pct),
    ensures
        adds_up(a),
    decreases b,
{
    if is_walked(b) && b.size != 0 {
        let m = descend_size(root_size, min_pct);
        let kids = b.children@;
        let (p, mid) = choose|p: Seq<int>, mid: Seq<TopologyNode>|
            {
                &&& sorted_with(kids, Seq::new(p.len(), |k: int| kids[p[k]]), p)
                &&& mid.len() == p.len()
                &&& forall|k: int|
                    0 <= k < p.len() ==> if kids[p[k]].size >= m {
                        covered(kids[p[k]], #[trigger] mid[k], basis_points, max_items, root_size, min_pct)
                    } else {
                        pruned_from(kids[p[k]], mid[k])
                    }
                &&& coverage_split(mid, a.children@, b.size, basis_points, max_items)
            };
        assert forall|k: int| 0 <= k < mid.len() implies adds_up(#[trigger] mid[k]) by {
            assert(0 <= p[k] < kids.len());
            assert(adds_up(kids[p[k]]));
            if kids[p[k]].size >= m {
                lemma_coverage_adds_up(kids[p[k]], mid[k], basis_points, max_items, root_size, min_pct);
            }
        }
        let kc = kept_count(mid, coverage_target(b.size, basis_points), max_items as int);
        assert forall|j: int| 0 <= j < a.children.len() implies adds_up(#[trigger] a.children@[j]) by {
            if kc < mid.len() {
                if j < kc {
                    assert(a.children@[j] == a.children@.take(kc)[j]);
                    assert(a.children@[j] == mid[j]);
                }
            }
        }
        if b.children.len() > 0 {
            lemma_coverage_keeps_totals(b, a, basis_points, max_items, root_size, min_pct, 1);
            lemma_coverage_keeps_totals(b, a, basis_points, max_items, root_size, min_pct, 2);
            lemma_effective_is_own(kids, 1, m);
            lemma_effective_is_own(kids, 2, m);
        } else {
            assert(mid.len() == 0);
            assert(a.children@ == mid);
        }
    }
}

/// Limiting the depth keeps every directory adding up.
pub proof fn lemma_depth_adds_up(b: TopologyNode, a: TopologyNode, max_depth: int, depth: int)
    requires
        adds_up(b),
        depth_limited(b, a, max_depth, depth),
    ensures
        adds_up(a),
    decreases b,
{
    if is_walked(b) {
        lemma_depth_keeps_totals(b, a, max_depth, depth, 0);
        lemma_depth_keeps_totals(b, a, max_depth, depth, 1);
        lemma_depth_keeps_totals(b, a, max_depth, depth, 2);
        if !(depth >= max_depth && b.children.len() > 0) {
            assert forall|i: int| 0 <= i < a.children.len() implies adds_up(#[trigger] a.children@[i]) by {
                lemma_depth_adds_up(b.children@[i], a.children@[i], max_depth, depth + 1);
            }
        } else {
            assert(!a.children@[0].is_dir);
            assert(adds_up(a.children@[0]));
            assert forall|i: int| 0 <= i < a.children.len() implies adds_up(#[trigger] a.children@[i]) by {
                assert(i == 0);
            }
        }
    }
}

} // verus!
