//! The disk topology tree and the passes that compute its sizes and counts.

use vstd::prelude::*;
use crate::sort::{sort_by_size_desc, stably_sorted_desc, SizeKeyed, sum_of};
use crate::text::{format_size, format_size_spec};

verus! {

/// A file, a directory, or an aggregation bucket standing for several items.
#[derive(Debug)]
pub struct TopologyNode {
    pub name: String,
    /// The path of the entry, as text; empty for aggregation buckets.
    pub path: String,
    pub size: u64,
    pub size_human: String,
    pub is_dir: bool,
    pub children: Vec<TopologyNode>,
    pub file_count: u64,
    pub dir_count: u64,
    pub is_aggregated: bool,
    pub aggregated_count: u64,
}

impl SizeKeyed for TopologyNode {
    open spec fn size_key(&self) -> u64 {
        self.size
    }

    fn key(&self) -> (k: u64) {
        self.size
    }
}

/// A summary row (name, size, file count, directory count, and whether the
/// item is an aggregation bucket) is ordered by its size.
impl SizeKeyed for (String, u64, u64, u64, bool) {
    open spec fn size_key(&self) -> u64 {
        self.1
    }

    fn key(&self) -> (k: u64) {
        self.1
    }
}

/// The summary row of a node.
pub open spec fn summary_of(n: TopologyNode) -> (String, u64, u64, u64, bool) {
    (n.name, n.size, n.file_count, n.dir_count, n.is_aggregated)
}

/// Measure `w` of a node itself: 0 its size, 1 its file count, 2 its directory count.
pub open spec fn own_value(n: TopologyNode, w: nat) -> int {
    if w == 0 {
        n.size as int
    } else if w == 1 {
        n.file_count as int
    } else {
        n.dir_count as int
    }
}

pub open spec fn own_fn(w: nat) -> spec_fn(TopologyNode) -> int {
    |n: TopologyNode| own_value(n, w)
}

/// The sum of measure `w` over the nodes of `s` themselves.
pub open spec fn field_sum(s: Seq<TopologyNode>, w: nat) -> int {
    sum_of(s, own_fn(w))
}

/// Whether a node's totals are derived from its children: a directory that is
/// not an aggregation bucket.
pub open spec fn is_walked(n: TopologyNode) -> bool {
    n.is_dir && !n.is_aggregated
}

/// Measure `w` of a subtree as the recursive passes compute it: a walked
/// directory sums its children (and counts itself as a directory); any other
/// node keeps its own value.
pub open spec fn subtree_total(n: TopologyNode, w: nat) -> int
    decreases n,
{
    if is_walked(n) {
        forest_total(n.children@, w) + (if w == 2 { 1int } else { 0int })
    } else {
        own_value(n, w)
    }
}

pub open spec fn forest_total(s: Seq<TopologyNode>, w: nat) -> int
    decreases s,
{
    if s.len() == 0 {
        0
    } else {
        forest_total(s.drop_last(), w) + subtree_total(s.last(), w)
    }
}

/// The node fields other than the children, size and counts agree.
pub open spec fn same_identity(a: TopologyNode, b: TopologyNode) -> bool {
    &&& a.name == b.name
    &&& a.path == b.path
    &&& a.is_dir == b.is_dir
    &&& a.is_aggregated == b.is_aggregated
    &&& a.aggregated_count == b.aggregated_count
}

/// `after` is `before` once sizes have been computed: every node visited
/// holds its subtree size and the matching human-readable text.
pub open spec fn sized_from(before: TopologyNode, after: TopologyNode) -> bool
    decreases before,
{
    &&& same_identity(before, after)
    &&& after.file_count == before.file_count
    &&& after.dir_count == before.dir_count
    &&& after.size == subtree_total(before, 0)
    &&& after.size_human@ == format_size_spec(after.size)
    &&& if is_walked(before) {
        &&& after.children.len() == before.children.len()
        &&& forall|i: int|
            0 <= i < before.children.len() ==> sized_from(
                before.children@[i],
                #[trigger] after.children@[i],
            )
    } else {
        after.children == before.children
    }
}

/// `after` is `before` once file and directory counts have been computed.
pub open spec fn counted_from(before: TopologyNode, after: TopologyNode) -> bool
    decreases before,
{
    &&& same_identity(before, after)
    &&& after.size == before.size
    &&& after.size_human == before.size_human
    &&& after.file_count == subtree_total(before, 1)
    &&& after.dir_count == subtree_total(before, 2)
    &&& if is_walked(before) {
        &&& after.children.len() == before.children.len()
        &&& forall|i: int|
            0 <= i < before.children.len() ==> counted_from(
                before.children@[i],
                #[trigger] after.children@[i],
            )
    } else {
        after.children == before.children
    }
}

pub proof fn lemma_subtree_total_nonneg(n: TopologyNode, w: nat)
    ensures
        subtree_total(n, w) >= 0,
    decreases n,
{
    if is_walked(n) {
        lemma_forest_total_nonneg(n.children@, w);
    }
}

pub proof fn lemma_forest_total_nonneg(s: Seq<TopologyNode>, w: nat)
    ensures
        forest_total(s, w) >= 0,
    decreases s,
{
    if s.len() > 0 {
        lemma_forest_total_nonneg(s.drop_last(), w);
        lemma_subtree_total_nonneg(s.last(), w);
    }
}

pub proof fn lemma_forest_total_take(s: Seq<TopologyNode>, i: int, w: nat)
    requires
        0 <= i < s.len(),
    ensures
        forest_total(s.take(i + 1), w) == forest_total(s.take(i), w) + subtree_total(s[i], w),
{
    assert(s.take(i + 1).drop_last() =~= s.take(i));
}

pub proof fn lemma_forest_total_prefix(s: Seq<TopologyNode>, i: int, w: nat)
    requires
        0 <= i <= s.len(),
    ensures
        0 <= forest_total(s.take(i), w) <= forest_total(s, w),
    decreases s.len() - i,
{
    lemma_forest_total_nonneg(s.take(i), w);
    if i == s.len() {
        assert(s.take(i) =~= s);
    } else {
        lemma_forest_total_take(s, i, w);
        lemma_subtree_total_nonneg(s[i], w);
        lemma_forest_total_prefix(s, i + 1, w);
    }
}

proof fn lemma_field_sum_of_totals(b: Seq<TopologyNode>, a: Seq<TopologyNode>, w: nat)
    requires
        a.len() == b.len(),
        forall|i: int| 0 <= i < a.len() ==> own_value(#[trigger] a[i], w) == subtree_total(b[i], w),
    ensures
        field_sum(a, w) == forest_total(b, w),
    decreases b.len(),
{
    if b.len() > 0 {
        let n = b.len() - 1;
        lemma_field_sum_of_totals(b.drop_last(), a.drop_last(), w);
        assert(own_value(a[n], w) == subtree_total(b[n], w));
    }
}

/// Once sizes are computed, a directory's size is the sum of its children's sizes.
pub proof fn lemma_sized_directory_sums_children(before: TopologyNode, after: TopologyNode)
    requires
        sized_from(before, after),
        is_walked(before),
    ensures
        after.size == field_sum(after.children@, 0),
{
    assert forall|i: int| 0 <= i < after.children.len() implies own_value(#[trigger] after.children@[i], 0)
        == subtree_total(before.children@[i], 0) by {
        assert(sized_from(before.children@[i], after.children@[i]));
    }
    lemma_field_sum_of_totals(before.children@, after.children@, 0);
}

/// Once counts are computed, a directory holds the files of its children and
/// their directories plus itself.
pub proof fn lemma_counted_directory_sums_children(before: TopologyNode, after: TopologyNode)
    requires
        counted_from(before, after),
        is_walked(before),
    ensures
        after.file_count == field_sum(after.children@, 1),
        after.dir_count == field_sum(after.children@, 2) + 1,
{
    assert forall|i: int| 0 <= i < after.children.len() implies own_value(#[trigger] after.children@[i], 1)
        == subtree_total(before.children@[i], 1) && own_value(after.children@[i], 2) == subtree_total(
        before.children@[i],
        2,
    ) by {
        assert(counted_from(before.children@[i], after.children@[i]));
    }
    lemma_field_sum_of_totals(before.children@, after.children@, 1);
    lemma_field_sum_of_totals(before.children@, after.children@, 2);
}

impl TopologyNode {
    /// A file of the given size.
    pub fn new_file(name: String, path: String, size: u64) -> (n: Self)
        ensures
            n.name == name,
            n.path == path,
            n.size == size,
            n.size_human@ == format_size_spec(size),
            !n.is_dir,
            n.children@.len() == 0,
            n.file_count == 1,
            n.dir_count == 0,
            !n.is_aggregated,
            n.aggregated_count == 0,
    {
        TopologyNode {
            name,
            path,
            size,
            size_human: format_size(size),
            is_dir: false,
            children: Vec::new(),
            file_count: 1,
            dir_count: 0,
            is_aggregated: false,
            aggregated_count: 0,
        }
    }

    /// An empty directory; its size is computed later.
    pub fn new_dir(name: String, path: String) -> (n: Self)
        ensures
            n.name == name,
            n.path == path,
            n.size == 0,
            n.size_human@.len() == 0,
            n.is_dir,
            n.children@.len() == 0,
            n.file_count == 0,
            n.dir_count == 1,
            !n.is_aggregated,
            n.aggregated_count == 0,
    {
        TopologyNode {
            name,
            path,
            size: 0,
            size_human: String::new(),
            is_dir: true,
            children: Vec::new(),
            file_count: 0,
            dir_count: 1,
            is_aggregated: false,
            aggregated_count: 0,
        }
    }

    /// A bucket standing for `count` items with the given totals.
    pub fn new_aggregated(name: String, size: u64, count: u64, file_count: u64, dir_count: u64) -> (n:
        Self)
        ensures
            n.name == name,
            n.path@.len() == 0,
            n.size == size,
            n.size_human@ == format_size_spec(size),
            !n.is_dir,
            n.children@.len() == 0,
            n.file_count == file_count,
            n.dir_count == dir_count,
            n.is_aggregated,
            n.aggregated_count == count,
    {
        TopologyNode {
            name,
            path: String::new(),
            size,
            size_human: format_size(size),
            is_dir: false,
            children: Vec::new(),
            file_count,
            dir_count,
            is_aggregated: true,
            aggregated_count: count,
        }
    }

    /// The summary rows of the children, sorted by size, largest first
    /// (children of equal size keep their order).
    pub fn collect_top_items(&self) -> (items: Vec<(String, u64, u64, u64, bool)>)
        ensures
            stably_sorted_desc(
                Seq::new(self.children@.len(), |i: int| summary_of(self.children@[i])),
                items@,
            ),
    {
        let mut rows: Vec<(String, u64, u64, u64, bool)> = Vec::new();
        let mut i: usize = 0;
        while i < self.children.len()
            invariant
                i <= self.children.len(),
                rows@.len() == i,
                forall|j: int| 0 <= j < i ==> #[trigger] rows@[j] == summary_of(self.children@[j]),
            decreases self.children.len() - i,
        {
            let c = &self.children[i];
            rows.push((c.name.clone(), c.size, c.file_count, c.dir_count, c.is_aggregated));
            i = i + 1;
        }
        assert(rows@ =~= Seq::new(self.children@.len(), |i: int| summary_of(self.children@[i])));
        sort_by_size_desc(rows)
    }

    /// Computes the size of every directory as the sum of its children,
    /// recursively, and refreshes the human-readable sizes; returns the size.
    pub fn calculate_size(&mut self) -> (r: u64)
        requires
            subtree_total(*old(self), 0) <= u64::MAX,
        ensures
            sized_from(*old(self), *final(self)),
            r == final(self).size,
        decreases *old(self),
    {
        if self.is_dir && !self.is_aggregated {
            let mut total: u64 = 0;
            let mut i: usize = 0;
            while i < self.children.len()
                invariant
                    0 <= i <= self.children.len(),
                    forest_total(old(self).children@, 0) <= u64::MAX,
                    is_walked(*old(self)),
                    same_identity(*old(self), *self),
                    self.file_count == old(self).file_count,
                    self.dir_count == old(self).dir_count,
                    self.children.len() == old(self).children.len(),
                    forall|j: int|
                        i <= j < self.children.len() ==> self.children@[j] == old(self).children@[j],
                    forall|j: int|
                        0 <= j < i ==> sized_from(
                            old(self).children@[j],
                            #[trigger] self.children@[j],
                        ),
                    total == forest_total(old(self).children@.take(i as int), 0),
                decreases self.children.len() - i,
            {
                proof {
                    lemma_forest_total_take(old(self).children@, i as int, 0);
                    lemma_forest_total_prefix(old(self).children@, i + 1, 0);
                    lemma_forest_total_nonneg(old(self).children@.take(i as int), 0);
                }
                let s = self.children[i].calculate_size();
                total = total + s;
                i = i + 1;
            }
            proof {
                assert(old(self).children@.take(i as int) =~= old(self).children@);
            }
            self.size = total;
        }
        self.size_human = format_size(self.size);
        self.size
    }

    /// Computes the file and directory counts of every directory from its
    /// children, recursively (a directory counts itself); returns the pair.
    pub fn calculate_counts(&mut self) -> (r: (u64, u64))
        requires
            subtree_total(*old(self), 1) <= u64::MAX,
            subtree_total(*old(self), 2) <= u64::MAX,
        ensures
            counted_from(*old(self), *final(self)),
            r == (final(self).file_count, final(self).dir_count),
        decreases *old(self),
    {
        if self.is_dir && !self.is_aggregated {
            let mut total_files: u64 = 0;
            let mut total_dirs: u64 = 1;
            let mut i: usize = 0;
            while i < self.children.len()
                invariant
                    0 <= i <= self.children.len(),
                    forest_total(old(self).children@, 1) <= u64::MAX,
                    forest_total(old(self).children@, 2) + 1 <= u64::MAX,
                    is_walked(*old(self)),
                    same_identity(*old(self), *self),
                    self.size == old(self).size,
                    self.size_human == old(self).size_human,
                    self.children.len() == old(self).children.len(),
                    forall|j: int|
                        i <= j < self.children.len() ==> self.children@[j] == old(self).children@[j],
                    forall|j: int|
                        0 <= j < i ==> counted_from(
                            old(self).children@[j],
                            #[trigger] self.children@[j],
                        ),
                    total_files == forest_total(old(self).children@.take(i as int), 1),
                    total_dirs == forest_total(old(self).children@.take(i as int), 2) + 1,
                decreases self.children.len() - i,
            {
                proof {
                    lemma_forest_total_take(old(self).children@, i as int, 1);
                    lemma_forest_total_prefix(old(self).children@, i + 1, 1);
                    lemma_forest_total_take(old(self).children@, i as int, 2);
                    lemma_forest_total_prefix(old(self).children@, i + 1, 2);
                    lemma_subtree_total_nonneg(old(self).children@[i as int], 1);
                    lemma_subtree_total_nonneg(old(self).children@[i as int], 2);
                }
                let (f, d) = self.children[i].calculate_counts();
                total_files = total_files + f;
                total_dirs = total_dirs + d;
                i = i + 1;
            }
            proof {
                assert(old(self).children@.take(i as int) =~= old(self).children@);
            }
            self.file_count = total_files;
            self.dir_count = total_dirs;
        }
        (self.file_count, self.dir_count)
    }
}

} // verus!
