//! The computing side of a scan: turning a directory listing into a node,
//! the scan configuration, the passes run on the finished tree, and disk
//! capacity figures.

use vstd::prelude::*;
use crate::aggregate::{covered, depth_limited, thresholded, SizeText};
use crate::pipeline::{
    adds_up, lemma_computed_adds_up, lemma_coverage_adds_up, lemma_depth_adds_up, lemma_threshold_adds_up,
    lemma_computed_within_parent, lemma_coverage_within_parent, lemma_sizing_keeps_count_totals,
    lemma_threshold_within_parent, lemma_within_parent_coverage_fits, lemma_within_parent_depth_fits,
    lemma_within_parent_sums_fit, no_buckets, within_parent,
};
use crate::text::{format_size, format_size_spec};
use crate::topology::{
    counted_from, forest_total, is_walked, lemma_forest_total_nonneg, lemma_forest_total_prefix,
    lemma_forest_total_take, lemma_subtree_total_nonneg, sized_from, subtree_total, TopologyNode,
};

verus! {

/// Scan configuration.
pub struct ScanConfig {
    /// Number of worker threads.
    pub num_workers: usize,
    /// Coverage for aggregation, in hundredths of a percent (9700 for 97%).
    pub coverage_basis_points: Option<u64>,
    /// Size threshold for aggregation, used when no coverage is given.
    pub threshold: Option<u64>,
    /// Maximum depth shown (0 = unlimited).
    pub max_depth: usize,
    /// How the threshold is written in the names of its buckets.
    pub threshold_style: SizeText,
}

impl Default for ScanConfig {
    /// Twelve workers, 97% coverage, no threshold, unlimited depth.
    fn default() -> (c: Self)
        ensures
            c.num_workers == 12,
            c.coverage_basis_points == Some(9700u64),
            c.threshold is None,
            c.max_depth == 0,
            c.threshold_style == SizeText::Fixed,
    {
        ScanConfig {
            num_workers: 12,
            coverage_basis_points: Some(9700),
            threshold: None,
            max_depth: 0,
            threshold_style: SizeText::Fixed,
        }
    }
}

/// The aggregation the configuration asks for: coverage if given, else a
/// threshold if given, else none.
pub open spec fn aggregated_by(before: TopologyNode, after: TopologyNode, config: ScanConfig) -> bool {
    match config.coverage_basis_points {
        Some(bp) => covered(before, after, bp, 15, before.size, 1),
        None => match config.threshold {
            Some(t) => thresholded(before, after, t, config.threshold_style),
            None => after == before,
        },
    }
}

/// The depth limit the configuration asks for, counted from the root.
pub open spec fn depth_cut(before: TopologyNode, after: TopologyNode, max_depth: usize) -> bool {
    if max_depth > 0 {
        depth_limited(before, after, max_depth as int, 0)
    } else {
        after == before
    }
}

/// `result` is `tree` once a scan has computed sizes, then counts, then
/// applied the configured aggregation and depth limit.
pub open spec fn finished(tree: TopologyNode, result: TopologyNode, config: ScanConfig) -> bool {
    exists|sized: TopologyNode, counted: TopologyNode, aggregated: TopologyNode|
        {
            &&& sized_from(tree, sized)
            &&& counted_from(sized, counted)
            &&& aggregated_by(counted, aggregated, config)
            &&& depth_cut(aggregated, result, config.max_depth)
        }
}

/// A finished scan loses nothing: its root holds the total size, file count
/// and directory count of the whole tree, and every directory shown with
/// children holds exactly them.
pub proof fn lemma_finished_adds_up(tree: TopologyNode, result: TopologyNode, config: ScanConfig)
    requires
        no_buckets(tree),
        finished(tree, result, config),
    ensures
        adds_up(result),
        result.size == subtree_total(tree, 0),
        result.file_count == subtree_total(tree, 1),
        result.dir_count == subtree_total(tree, 2),
{
    let (sized, counted, aggregated) = choose|sized: TopologyNode, counted: TopologyNode, aggregated: TopologyNode|
        {
            &&& sized_from(tree, sized)
            &&& counted_from(sized, counted)
            &&& aggregated_by(counted, aggregated, config)
            &&& depth_cut(aggregated, result, config.max_depth)
        };
    lemma_sizing_keeps_count_totals(tree, sized, 1);
    lemma_sizing_keeps_count_totals(tree, sized, 2);
    lemma_computed_adds_up(tree, sized, counted);
    match config.coverage_basis_points {
        Some(bp) => {
            lemma_coverage_adds_up(counted, aggregated, bp, 15, counted.size, 1);
        },
        None => match config.threshold {
            Some(t) => {
                lemma_threshold_adds_up(counted, aggregated, t, config.threshold_style);
            },
            None => {},
        },
    }
    if config.max_depth > 0 {
        lemma_depth_adds_up(aggregated, result, config.max_depth as int, 0);
    }
}

/// Runs the passes of a scan on the tree assembled from the listings:
/// sizes, counts, the configured aggregation and the depth limit.
pub fn finish_tree(tree: TopologyNode, config: &ScanConfig) -> (result: TopologyNode)
    requires
        no_buckets(tree),
        subtree_total(tree, 0) <= u64::MAX,
        subtree_total(tree, 1) <= u64::MAX,
        subtree_total(tree, 2) <= u64::MAX,
    ensures
        finished(tree, result, *config),
        adds_up(result),
        result.size == subtree_total(tree, 0),
        result.file_count == subtree_total(tree, 1),
        result.dir_count == subtree_total(tree, 2),
{
    let mut t = tree;
    t.calculate_size();
    let ghost sized = t;
    proof {
        lemma_sizing_keeps_count_totals(tree, sized, 1);
        lemma_sizing_keeps_count_totals(tree, sized, 2);
    }
    t.calculate_counts();
    let ghost counted = t;
    proof {
        lemma_computed_within_parent(tree, sized, counted);
    }
    match config.coverage_basis_points {
        Some(bp) => {
            proof {
                lemma_within_parent_coverage_fits(counted, counted.size, 1);
            }
            t.apply_coverage(bp);
            proof {
                lemma_coverage_within_parent(counted, t, bp, 15, counted.size, 1);
            }
        },
        None => match config.threshold {
            Some(th) => {
                proof {
                    lemma_within_parent_sums_fit(counted);
                }
                t.apply_threshold_with(th, &config.threshold_style);
                proof {
                    lemma_threshold_within_parent(counted, t, th, config.threshold_style);
                }
            },
            None => {},
        },
    }
    let ghost aggregated = t;
    if config.max_depth > 0 {
        proof {
            lemma_within_parent_depth_fits(aggregated, config.max_depth as int, 0);
        }
        t.limit_depth(config.max_depth, 0);
    }
    assert(sized_from(tree, sized));
    assert(counted_from(sized, counted));
    assert(aggregated_by(counted, aggregated, *config));
    assert(depth_cut(aggregated, t, config.max_depth));
    assert(finished(tree, t, *config));
    proof {
        lemma_finished_adds_up(tree, t, *config);
    }
    t
}

/// Runs the passes of a scan on any tree: `None` when the tree holds a
/// bucket or its total size, file count or directory count does not fit in
/// 64 bits (where the passes' sums would overflow), else the finished tree.
pub fn checked_finish_tree(tree: TopologyNode, config: &ScanConfig) -> (r: Option<TopologyNode>)
    ensures
        r is Some <==> (no_buckets(tree) && subtree_total(tree, 0) <= u64::MAX && subtree_total(tree, 1)
            <= u64::MAX && subtree_total(tree, 2) <= u64::MAX),
        r matches Some(result) ==> finished(tree, result, *config) && adds_up(result) && result.size
            == subtree_total(tree, 0) && result.file_count == subtree_total(tree, 1) && result.dir_count
            == subtree_total(tree, 2),
{
    if !has_no_buckets(&tree) {
        return None;
    }
    match checked_totals(&tree) {
        None => None,
        Some(_) => Some(finish_tree(tree, config)),
    }
}

/// Whether no node of the tree is an aggregation bucket.
pub fn has_no_buckets(n: &TopologyNode) -> (r: bool)
    ensures
        r == no_buckets(*n),
    decreases *n,
{
    if n.is_aggregated {
        return false;
    }
    let mut i: usize = 0;
    while i < n.children.len()
        invariant
            i <= n.children.len(),
            !n.is_aggregated,
            forall|j: int| 0 <= j < i ==> no_buckets(#[trigger] n.children@[j]),
        decreases n.children.len() - i,
    {
        if !has_no_buckets(&n.children[i]) {
            return false;
        }
        i = i + 1;
    }
    true
}

/// The total size, file count and directory count of the tree as the passes
/// compute them, if each fits in 64 bits.
pub fn checked_totals(n: &TopologyNode) -> (r: Option<(u64, u64, u64)>)
    ensures
        r is Some <==> (subtree_total(*n, 0) <= u64::MAX && subtree_total(*n, 1) <= u64::MAX
            && subtree_total(*n, 2) <= u64::MAX),
        r matches Some(t) ==> t.0 == subtree_total(*n, 0) && t.1 == subtree_total(*n, 1) && t.2
            == subtree_total(*n, 2),
    decreases *n,
{
    if !(n.is_dir && !n.is_aggregated) {
        return Some((n.size, n.file_count, n.dir_count));
    }
    let ghost kids = n.children@;
    let mut size: u64 = 0;
    let mut files: u64 = 0;
    let mut dirs: u64 = 0;
    let mut i: usize = 0;
    proof {
        lemma_forest_total_nonneg(kids, 0);
        lemma_forest_total_nonneg(kids, 1);
        lemma_forest_total_nonneg(kids, 2);
    }
    while i < n.children.len()
        invariant
            i <= n.children.len(),
            kids == n.children@,
            is_walked(*n),
            size == forest_total(kids.take(i as int), 0),
            files == forest_total(kids.take(i as int), 1),
            dirs == forest_total(kids.take(i as int), 2),
        decreases n.children.len() - i,
    {
        proof {
            lemma_forest_total_take(kids, i as int, 0);
            lemma_forest_total_take(kids, i as int, 1);
            lemma_forest_total_take(kids, i as int, 2);
            lemma_forest_total_prefix(kids, i + 1, 0);
            lemma_forest_total_prefix(kids, i + 1, 1);
            lemma_forest_total_prefix(kids, i + 1, 2);
            lemma_subtree_total_nonneg(kids[i as int], 0);
            lemma_subtree_total_nonneg(kids[i as int], 1);
            lemma_subtree_total_nonneg(kids[i as int], 2);
        }
        match checked_totals(&n.children[i]) {
            None => {
                return None;
            },
            Some((s, f, d)) => {
                match size.checked_add(s) {
                    Some(v) => {
                        size = v;
                    },
                    None => {
                        return None;
                    },
                }
                match files.checked_add(f) {
                    Some(v) => {
                        files = v;
                    },
                    None => {
                        return None;
                    },
                }
                match dirs.checked_add(d) {
                    Some(v) => {
                        dirs = v;
                    },
                    None => {
                        return None;
                    },
                }
            },
        }
        i = i + 1;
    }
    proof {
        assert(kids.take(i as int) =~= kids);
    }
    match dirs.checked_add(1) {
        Some(v) => Some((size, files, v)),
        None => None,
    }
}

/// What a directory entry is.
pub enum EntryKind {
    /// A regular file of the given size in bytes.
    File(u64),
    Dir,
    /// Anything else (a symbolic link, a socket, ...), which is not counted.
    Other,
}

/// A directory entry as read from the file system.
pub struct EntryInfo {
    pub name: String,
    pub path: String,
    pub kind: EntryKind,
}

/// The node of one directory and what its listing adds to the progress figures.
pub struct DirectoryListing {
    /// The directory with its files as children.
    pub node: TopologyNode,
    /// The positions, in the listing, of the subdirectories to scan next.
    pub subdirs: Vec<usize>,
    /// The bytes of the files listed.
    pub bytes: u64,
    /// The number of files listed.
    pub files: u64,
}

/// The file entries of a listing, in order.
pub open spec fn file_entries(entries: Seq<EntryInfo>) -> Seq<EntryInfo>
    decreases entries.len(),
{
    if entries.len() == 0 {
        entries
    } else if entries.last().kind is File {
        file_entries(entries.drop_last()).push(entries.last())
    } else {
        file_entries(entries.drop_last())
    }
}

/// The positions of the directory entries of a listing, in order.
pub open spec fn dir_positions(entries: Seq<EntryInfo>) -> Seq<usize>
    decreases entries.len(),
{
    if entries.len() == 0 {
        Seq::empty()
    } else if entries.last().kind is Dir {
        dir_positions(entries.drop_last()).push((entries.len() - 1) as usize)
    } else {
        dir_positions(entries.drop_last())
    }
}

/// The total size of the files of a listing.
pub open spec fn file_bytes(entries: Seq<EntryInfo>) -> int
    decreases entries.len(),
{
    if entries.len() == 0 {
        0
    } else {
        file_bytes(entries.drop_last()) + match entries.last().kind {
            EntryKind::File(size) => size as int,
            _ => 0,
        }
    }
}

/// `n` is the file node of entry `e`.
pub open spec fn is_file_node(n: TopologyNode, e: EntryInfo) -> bool {
    &&& e.kind matches EntryKind::File(size)
    &&& n.name == e.name
    &&& n.path == e.path
    &&& n.size == size
    &&& n.size_human@ == format_size_spec(size)
    &&& !n.is_dir
    &&& n.children@.len() == 0
    &&& n.file_count == 1
    &&& n.dir_count == 0
    &&& !n.is_aggregated
    &&& n.aggregated_count == 0
}

proof fn lemma_file_bytes_nonneg(entries: Seq<EntryInfo>)
    ensures
        file_bytes(entries) >= 0,
    decreases entries.len(),
{
    if entries.len() > 0 {
        lemma_file_bytes_nonneg(entries.drop_last());
    }
}

proof fn lemma_file_bytes_prefix(entries: Seq<EntryInfo>, i: int)
    requires
        0 <= i <= entries.len(),
    ensures
        0 <= file_bytes(entries.take(i)) <= file_bytes(entries),
    decreases entries.len() - i,
{
    lemma_file_bytes_nonneg(entries.take(i));
    if i < entries.len() {
        assert(entries.take(i + 1).drop_last() =~= entries.take(i));
        lemma_file_bytes_prefix(entries, i + 1);
    } else {
        assert(entries.take(i) =~= entries);
    }
}

/// Builds the node of a directory from its listing: the files become its
/// children, in order; the subdirectories are returned to be scanned.
pub fn directory_listing(name: String, path: String, entries: Vec<EntryInfo>) -> (r: DirectoryListing)
    requires
        file_bytes(entries@) <= u64::MAX,
    ensures
        r.node.name == name,
        r.node.path == path,
        r.node.size == 0,
        r.node.size_human@.len() == 0,
        r.node.is_dir,
        r.node.file_count == 0,
        r.node.dir_count == 1,
        !r.node.is_aggregated,
        r.node.aggregated_count == 0,
        r.node.children@.len() == file_entries(entries@).len(),
        forall|k: int|
            0 <= k < r.node.children@.len() ==> is_file_node(
                #[trigger] r.node.children@[k],
                file_entries(entries@)[k],
            ),
        r.subdirs@ == dir_positions(entries@),
        r.bytes == file_bytes(entries@),
        r.files == file_entries(entries@).len(),
{
    let ghost es = entries@;
    let n = entries.len();
    let mut rev = crate::sort::reversed(entries);
    let mut files: Vec<TopologyNode> = Vec::new();
    let mut subdirs: Vec<usize> = Vec::new();
    let mut bytes: u64 = 0;
    let mut count: u64 = 0;
    let mut i: usize = 0;
    while i < n
        invariant
            i <= n == es.len(),
            rev@.len() == n - i,
            forall|k: int| 0 <= k < rev@.len() ==> rev@[k] == es[es.len() - 1 - k],
            file_bytes(es) <= u64::MAX,
            files@.len() == file_entries(es.take(i as int)).len(),
            forall|k: int|
                0 <= k < files@.len() ==> is_file_node(#[trigger] files@[k], file_entries(es.take(i as int))[k]),
            subdirs@ == dir_positions(es.take(i as int)),
            bytes == file_bytes(es.take(i as int)),
            count == file_entries(es.take(i as int)).len(),
            count <= i,
        decreases n - i,
    {
        let e = rev.pop().unwrap();
        assert(e == es[i as int]);
        proof {
            assert(es.take(i + 1).drop_last() =~= es.take(i as int));
            lemma_file_bytes_prefix(es, i + 1);
        }
        let ghost prev_files = files@;
        match e.kind {
            EntryKind::File(size) => {
                files.push(TopologyNode::new_file(e.name, e.path, size));
                bytes = bytes + size;
                count = count + 1;
                proof {
                    assert forall|k: int| 0 <= k < files@.len() implies is_file_node(
                        #[trigger] files@[k],
                        file_entries(es.take(i + 1))[k],
                    ) by {
                        if k < prev_files.len() {
                            assert(files@[k] == prev_files[k]);
                        }
                    }
                }
            },
            EntryKind::Dir => {
                subdirs.push(i);
            },
            EntryKind::Other => {},
        }
        i = i + 1;
    }
    assert(es.take(n as int) =~= es);
    let mut node = TopologyNode::new_dir(name, path);
    node.children = files;
    DirectoryListing { node, subdirs, bytes, files: count }
}

/// Whether the file sizes of a listing add up within 64 bits.
pub fn listing_fits(entries: &Vec<EntryInfo>) -> (r: bool)
    ensures
        r == (file_bytes(entries@) <= u64::MAX),
{
    let ghost es = entries@;
    let mut total: u64 = 0;
    let mut i: usize = 0;
    while i < entries.len()
        invariant
            i <= entries.len(),
            es == entries@,
            total == file_bytes(es.take(i as int)),
        decreases entries.len() - i,
    {
        proof {
            assert(es.take(i + 1).drop_last() =~= es.take(i as int));
            lemma_file_bytes_prefix(es, i + 1);
        }
        match entries[i].kind {
            EntryKind::File(size) => {
                match total.checked_add(size) {
                    Some(v) => {
                        total = v;
                    },
                    None => {
                        return false;
                    },
                }
            },
            _ => {},
        }
        i = i + 1;
    }
    assert(es.take(i as int) =~= es);
    true
}

/// Capacity figures of a file system.
pub struct DiskInfo {
    pub total_capacity: u64,
    pub used: u64,
    pub available: u64,
    pub total_human: String,
    pub used_human: String,
    pub available_human: String,
}

impl DiskInfo {
    /// The figures of a file system with `blocks` blocks of `block_size`
    /// bytes, of which `free_blocks` are free and `available_blocks` are
    /// available to unprivileged users.
    pub fn from_blocks(block_size: u64, blocks: u64, available_blocks: u64, free_blocks: u64) -> (d: Self)
        requires
            blocks * block_size <= u64::MAX,
            available_blocks * block_size <= u64::MAX,
            free_blocks * block_size <= blocks * block_size,
        ensures
            d.total_capacity == blocks * block_size,
            d.available == available_blocks * block_size,
            d.used == blocks * block_size - free_blocks * block_size,
            d.total_human@ == format_size_spec(d.total_capacity),
            d.used_human@ == format_size_spec(d.used),
            d.available_human@ == format_size_spec(d.available),
    {
        let total = blocks * block_size;
        let available = available_blocks * block_size;
        let free = free_blocks * block_size;
        let used = total - free;
        DiskInfo {
            total_capacity: total,
            used,
            available,
            total_human: format_size(total),
            used_human: format_size(used),
            available_human: format_size(available),
        }
    }

    /// The figures of a file system, or `None` if its byte counts do not fit
    /// in 64 bits or more blocks are free than it has.
    pub fn checked_from_blocks(block_size: u64, blocks: u64, available_blocks: u64, free_blocks: u64) -> (d:
        Option<Self>)
        ensures
            d is Some <==> (blocks * block_size <= u64::MAX && available_blocks * block_size <= u64::MAX
                && free_blocks * block_size <= blocks * block_size),
            d matches Some(info) ==> info.total_capacity == blocks * block_size && info.available
                == available_blocks * block_size && info.used == blocks * block_size - free_blocks
                * block_size && info.total_human@ == format_size_spec(info.total_capacity)
                && info.used_human@ == format_size_spec(info.used) && info.available_human@
                == format_size_spec(info.available),
    {
        let total = match blocks.checked_mul(block_size) {
            Some(v) => v,
            None => {
                return None;
            },
        };
        let available = match available_blocks.checked_mul(block_size) {
            Some(v) => v,
            None => {
                return None;
            },
        };
        let free = match free_blocks.checked_mul(block_size) {
            Some(v) => v,
            None => {
                assert(free_blocks * block_size > blocks * block_size);
                return None;
            },
        };
        if free > total {
            return None;
        }
        Some(DiskInfo::from_blocks(block_size, blocks, available_blocks, free_blocks))
    }
}

} // verus!
