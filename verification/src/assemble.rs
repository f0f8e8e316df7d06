//! Assembling the scanned directories into one tree.

use vstd::prelude::*;
use crate::aggregate::same_header;
use crate::sort::{is_rearrangement, keeps_ties_in_order, sort_by_size_desc, SizeKeyed, index_used};
use crate::topology::TopologyNode;

verus! {

impl SizeKeyed for (usize, usize) {
    open spec fn size_key(&self) -> u64 {
        self.1 as u64
    }

    fn key(&self) -> (k: u64) {
        self.1 as u64
    }
}

/// `order` lists every id below `depth.len()` exactly once, deepest first,
/// ids of equal depth in increasing order.
pub open spec fn is_depth_order(order: Seq<usize>, depth: Seq<usize>) -> bool {
    &&& order.len() == depth.len()
    &&& forall|k: int| 0 <= k < order.len() ==> #[trigger] order[k] < depth.len()
    &&& forall|k: int, l: int| 0 <= k < l < order.len() ==> #[trigger] order[k] != #[trigger] order[l]
    &&& forall|k: int, l: int|
        0 <= k < l < order.len() ==> depth[#[trigger] order[k] as int] >= depth[#[trigger] order[l] as int]
    &&& forall|k: int, l: int|
        0 <= k < l < order.len() && depth[order[k] as int] == depth[order[l] as int] ==> #[trigger] order[k]
            < #[trigger] order[l]
    &&& forall|c: int| 0 <= c < depth.len() ==> #[trigger] listed(order, c)
}

pub open spec fn listed(order: Seq<usize>, c: int) -> bool {
    exists|k: int| 0 <= k < order.len() && order[k] == c
}

/// Where `c` stands in `order`.
pub open spec fn position_in(order: Seq<usize>, c: usize) -> int {
    choose|k: int| 0 <= k < order.len() && order[k] == c
}

/// A node that is never moved under another: the root, or one with no parent.
pub open spec fn is_anchored(parent: Seq<Option<usize>>, root: Option<usize>, x: usize) -> bool {
    root == Some(x) || parent[x as int] is None
}

/// When the directory `x` stops being available to receive subdirectories:
/// never for anchored nodes, else when it is itself moved.
pub open spec fn rank(parent: Seq<Option<usize>>, root: Option<usize>, order: Seq<usize>, x: usize) -> int {
    if is_anchored(parent, root, x) {
        order.len() as int
    } else {
        position_in(order, x)
    }
}

/// Node `c` ends up among the children of node `x`: `x` is its parent and is
/// still available when `c` is moved.
pub open spec fn attaches(
    parent: Seq<Option<usize>>,
    root: Option<usize>,
    order: Seq<usize>,
    c: usize,
    x: usize,
) -> bool {
    &&& root != Some(c)
    &&& parent[c as int] == Some(x)
    &&& (x as int) < parent.len()
    &&& rank(parent, root, order, x) > position_in(order, c)
}

/// The ids among `ids` that end up under `x`, in order.
pub open spec fn attached_among(
    ids: Seq<usize>,
    parent: Seq<Option<usize>>,
    root: Option<usize>,
    order: Seq<usize>,
    x: usize,
) -> Seq<usize>
    decreases ids.len(),
{
    if ids.len() == 0 {
        Seq::empty()
    } else {
        let prev = attached_among(ids.drop_last(), parent, root, order, x);
        if attaches(parent, root, order, ids.last(), x) {
            prev.push(ids.last())
        } else {
            prev
        }
    }
}

/// `v` is node `x` with, after its own children, the assembled subtrees of
/// the nodes among the first `upto` of `order` that end up under it.
pub open spec fn assembled_from(
    v: TopologyNode,
    x: usize,
    upto: int,
    nodes: Seq<TopologyNode>,
    parent: Seq<Option<usize>>,
    root: Option<usize>,
    order: Seq<usize>,
) -> bool
    decreases rank(parent, root, order, x),
{
    let base = nodes[x as int];
    let a = attached_among(order.take(upto), parent, root, order, x);
    &&& same_header(v, base)
    &&& v.children.len() == base.children.len() + a.len()
    &&& v.children@.take(base.children.len() as int) == base.children@
    &&& forall|j: int|
        0 <= j < a.len() ==> 0 <= rank(parent, root, order, #[trigger] a[j]) < rank(parent, root, order, x)
            && assembled_from(
            v.children@[base.children.len() + j],
            a[j],
            order.len() as int,
            nodes,
            parent,
            root,
            order,
        )
}

/// `r` is a fresh, empty directory.
pub open spec fn is_fresh_dir(r: TopologyNode, name: String, path: String) -> bool {
    &&& r.name == name
    &&& r.path == path
    &&& r.size == 0
    &&& r.size_human@.len() == 0
    &&& r.is_dir
    &&& r.children@.len() == 0
    &&& r.file_count == 0
    &&& r.dir_count == 1
    &&& !r.is_aggregated
    &&& r.aggregated_count == 0
}

/// `r` is the tree built from the scanned nodes: directories are moved
/// under their parents deepest first, so each subtree is complete when it is
/// moved; the result is the root node, or an empty directory if the root was
/// not scanned.
pub open spec fn built(
    r: TopologyNode,
    nodes: Seq<TopologyNode>,
    parent: Seq<Option<usize>>,
    depth: Seq<usize>,
    root: Option<usize>,
    root_name: String,
    root_path: String,
) -> bool {
    exists|order: Seq<usize>|
        {
            &&& is_depth_order(order, depth)
            &&& match root {
                Some(x) => if (x as int) < nodes.len() {
                    assembled_from(r, x, order.len() as int, nodes, parent, root, order)
                } else {
                    is_fresh_dir(r, root_name, root_path)
                },
                None => is_fresh_dir(r, root_name, root_path),
            }
        }
}

/// The ids `0..n` ordered deepest first, ties by id.
fn depth_order(depth: &Vec<usize>) -> (order: Vec<usize>)
    ensures
        is_depth_order(order@, depth@),
{
    let n = depth.len();
    let mut keyed: Vec<(usize, usize)> = Vec::new();
    let mut i: usize = 0;
    while i < n
        invariant
            i <= n == depth@.len(),
            keyed@.len() == i,
            forall|k: int| 0 <= k < i ==> #[trigger] keyed@[k] == (k as usize, depth@[k]),
        decreases n - i,
    {
        keyed.push((i, depth[i]));
        i = i + 1;
    }
    let ghost inp = keyed@;
    let sorted = sort_by_size_desc(keyed);
    let ghost p = choose|p: Seq<int>| is_rearrangement(inp, sorted@, p) && keeps_ties_in_order(sorted@, p);
    let mut order: Vec<usize> = Vec::new();
    let mut k: usize = 0;
    while k < sorted.len()
        invariant
            k <= sorted@.len(),
            order@.len() == k,
            forall|j: int| 0 <= j < k ==> #[trigger] order@[j] == sorted@[j].0,
        decreases sorted@.len() - k,
    {
        order.push(sorted[k].0);
        k = k + 1;
    }
    proof {
        assert forall|j: int| 0 <= j < order@.len() implies order@[j] == p[j] && sorted@[j] == inp[p[j]] && 0 <= p[j] < inp.len() by {
            assert(sorted@[j] == inp[p[j]]);
        }
        assert forall|c: int| 0 <= c < depth@.len() implies #[trigger] listed(order@, c) by {
            assert(index_used(p, c));
            let j = choose|j: int| 0 <= j < p.len() && #[trigger] p[j] == c;
            assert(order@[j] == c);
        }
        assert forall|a: int, b: int| 0 <= a < b < order@.len() implies depth@[#[trigger] order@[a] as int] >= depth@[#[trigger] order@[b] as int] by {
            assert(0 <= p[a] < inp.len() && 0 <= p[b] < inp.len());
            assert(sorted@[a] == inp[p[a]] && sorted@[b] == inp[p[b]]);
            assert(sorted@[a].size_key() >= sorted@[b].size_key());
            let da = depth@[p[a]];
            let db = depth@[p[b]];
            assert((da as u64) >= (db as u64));
        }
        assert forall|a: int, b: int| 0 <= a < b < order@.len() && depth@[order@[a] as int] == depth@[order@[b] as int] implies #[trigger] order@[a] < #[trigger] order@[b] by {
            assert(0 <= p[a] < inp.len() && 0 <= p[b] < inp.len());
            assert(sorted@[a] == inp[p[a]] && sorted@[b] == inp[p[b]]);
            assert(sorted@[a].size_key() == sorted@[b].size_key());
        }
        assert(order@.len() == depth@.len());
        assert forall|k: int| 0 <= k < order@.len() implies #[trigger] order@[k] < depth@.len() by {
            assert(order@[k] == p[k]);
        }
        assert forall|k: int, l: int| 0 <= k < l < order@.len() implies #[trigger] order@[k] != #[trigger] order@[l] by {
            assert(order@[k] == p[k] && order@[l] == p[l]);
        }
    }
    order
}

proof fn lemma_position_of(order: Seq<usize>, depth: Seq<usize>, k: int)
    requires
        is_depth_order(order, depth),
        0 <= k < order.len(),
    ensures
        position_in(order, order[k]) == k,
{
    let j = position_in(order, order[k]);
    assert(0 <= j < order.len() && order[j] == order[k]);
    if j != k {
        if j < k {
            assert(order[j] != order[k]);
        } else {
            assert(order[k] != order[j]);
        }
    }
}

proof fn lemma_attached_step(
    ids: Seq<usize>,
    parent: Seq<Option<usize>>,
    root: Option<usize>,
    order: Seq<usize>,
    k: int,
    x: usize,
)
    requires
        0 <= k < ids.len(),
    ensures
        attached_among(ids.take(k + 1), parent, root, order, x) == (if attaches(parent, root, order, ids[k], x) {
            attached_among(ids.take(k), parent, root, order, x).push(ids[k])
        } else {
            attached_among(ids.take(k), parent, root, order, x)
        }),
{
    assert(ids.take(k + 1).drop_last() =~= ids.take(k));
}

proof fn lemma_attached_complete(
    order: Seq<usize>,
    depth: Seq<usize>,
    parent: Seq<Option<usize>>,
    root: Option<usize>,
    c: usize,
    k: int,
    m: int,
)
    requires
        is_depth_order(order, depth),
        0 <= k <= m <= order.len(),
        !is_anchored(parent, root, c),
        position_in(order, c) == k,
    ensures
        attached_among(order.take(m), parent, root, order, c) == attached_among(order.take(k), parent, root, order, c),
    decreases m - k,
{
    if m > k {
        lemma_attached_complete(order, depth, parent, root, c, k, m - 1);
        lemma_attached_step(order, parent, root, order, m - 1, c);
        lemma_position_of(order, depth, m - 1);
    }
}

proof fn lemma_assembled_same_list(
    v: TopologyNode,
    y: usize,
    k1: int,
    k2: int,
    nodes: Seq<TopologyNode>,
    parent: Seq<Option<usize>>,
    root: Option<usize>,
    order: Seq<usize>,
)
    requires
        assembled_from(v, y, k1, nodes, parent, root, order),
        attached_among(order.take(k1), parent, root, order, y) == attached_among(
            order.take(k2),
            parent,
            root,
            order,
            y,
        ),
    ensures
        assembled_from(v, y, k2, nodes, parent, root, order),
{
}

proof fn lemma_assembled_push(
    pn: TopologyNode,
    pn2: TopologyNode,
    x: usize,
    c: usize,
    vc: TopologyNode,
    k: int,
    nodes: Seq<TopologyNode>,
    parent: Seq<Option<usize>>,
    root: Option<usize>,
    order: Seq<usize>,
)
    requires
        assembled_from(pn, x, k, nodes, parent, root, order),
        attached_among(order.take(k + 1), parent, root, order, x) == attached_among(
            order.take(k),
            parent,
            root,
            order,
            x,
        ).push(c),
        pn2.children@ == pn.children@.push(vc),
        same_header(pn2, pn),
        assembled_from(vc, c, order.len() as int, nodes, parent, root, order),
        0 <= rank(parent, root, order, c) < rank(parent, root, order, x),
    ensures
        assembled_from(pn2, x, k + 1, nodes, parent, root, order),
{
    let base = nodes[x as int];
    let a = attached_among(order.take(k), parent, root, order, x);
    let a2 = attached_among(order.take(k + 1), parent, root, order, x);
    assert(pn2.children@.take(base.children.len() as int) =~= pn.children@.take(base.children.len() as int));
    assert forall|j: int| 0 <= j < a2.len() implies 0 <= rank(parent, root, order, #[trigger] a2[j]) < rank(
        parent,
        root,
        order,
        x,
    ) && assembled_from(
        pn2.children@[base.children.len() + j],
        a2[j],
        order.len() as int,
        nodes,
        parent,
        root,
        order,
    ) by {
        if j < a.len() {
            assert(a2[j] == a[j]);
            assert(pn2.children@[base.children.len() + j] == pn.children@[base.children.len() + j]);
        } else {
            assert(a2[j] == c);
            assert(pn2.children@[base.children.len() + j] == vc);
        }
    }
}

fn fresh_dir(name: String, path: String) -> (r: TopologyNode)
    ensures
        is_fresh_dir(r, name, path),
{
    TopologyNode::new_dir(name, path)
}

/// Assembles the scanned directories into one tree. `nodes[i]` is the node of
/// directory `i` with its files as children; `parent[i]` is the id of the
/// directory it was found in (`None` if it has none recorded, an id of
/// `nodes.len()` or more if that directory was not scanned); `depth[i]` is
/// the number of components of its path; `root` is the id of the scanned
/// root, if it was scanned. Directories are moved under their parents
/// deepest first; the root node is returned, or an empty directory named
/// `root_name` if the root was not scanned.
pub fn build_tree(
    nodes: Vec<TopologyNode>,
    parent: &Vec<Option<usize>>,
    depth: &Vec<usize>,
    root: Option<usize>,
    root_name: String,
    root_path: String,
) -> (r: TopologyNode)
    requires
        nodes@.len() == parent@.len(),
        parent@.len() == depth@.len(),
    ensures
        built(r, nodes@, parent@, depth@, root, root_name, root_path),
{
    let ghost nv = nodes@;
    let ghost pv = parent@;
    let n = nodes.len();
    let order = depth_order(depth);
    let ghost ord = order@;
    let mut rev = crate::sort::reversed(nodes);
    let mut slots: Vec<Option<TopologyNode>> = Vec::new();
    let mut i: usize = 0;
    while i < n
        invariant
            i <= n == nv.len(),
            rev@.len() == n - i,
            forall|k: int| 0 <= k < rev@.len() ==> rev@[k] == nv[nv.len() - 1 - k],
            slots@.len() == i,
            forall|k: int| 0 <= k < i ==> #[trigger] slots@[k] == Some(nv[k]),
        decreases n - i,
    {
        let v = rev.pop().unwrap();
        slots.push(Some(v));
        i = i + 1;
    }
    proof {
        assert forall|y: int| 0 <= y < n implies #[trigger] position_in(ord, y as usize) >= 0 by {
            assert(listed(ord, y));
        }
        assert forall|y: int| 0 <= y < n && (#[trigger] slots@[y]) is Some implies assembled_from(
            slots@[y]->0,
            y as usize,
            0,
            nv,
            pv,
            root,
            ord,
        ) by {
            assert(ord.take(0) =~= Seq::<usize>::empty());
            assert(nv[y].children@.take(nv[y].children.len() as int) =~= nv[y].children@);
        }
    }
    let mut k: usize = 0;
    while k < n
        invariant
            k <= n == nv.len() == pv.len() == ord.len(),
            pv == parent@,
            ord == order@,
            is_depth_order(ord, depth@),
            slots@.len() == n,
            forall|y: int|
                0 <= y < n ==> ((#[trigger] slots@[y]) is Some <==> (is_anchored(pv, root, y as usize)
                    || position_in(ord, y as usize) >= k)),
            forall|y: int|
                0 <= y < n && (#[trigger] slots@[y]) is Some ==> assembled_from(
                    slots@[y]->0,
                    y as usize,
                    k as int,
                    nv,
                    pv,
                    root,
                    ord,
                ),
        decreases n - k,
    {
        let c = order[k];
        proof {
            lemma_position_of(ord, depth@, k as int);
            assert forall|y: usize| #![trigger attaches(pv, root, ord, c, y)] true implies attached_among(ord.take(k + 1), pv, root, ord, y)
                == (if attaches(pv, root, ord, c, y) {
                    attached_among(ord.take(k as int), pv, root, ord, y).push(c)
                } else {
                    attached_among(ord.take(k as int), pv, root, ord, y)
                }) by {
                lemma_attached_step(ord, pv, root, ord, k as int, y);
            }
        }
        let ghost before = slots@;
        let is_root = match root {
            Some(r) => r == c,
            None => false,
        };
        proof {
            assert forall|y: int| 0 <= y < n && y != c implies #[trigger] position_in(ord, y as usize) != k by {
                assert(listed(ord, y));
            }
            assert(c < n);
        }
        let mut attached_to: Option<usize> = None;
        if !is_root {
            match parent[c] {
                None => {},
                Some(x) => {
                    let ghost vc = before[c as int]->0;
                    proof {
                        lemma_attached_complete(ord, depth@, pv, root, c, k as int, n as int);
                        lemma_assembled_same_list(vc, c, k as int, n as int, nv, pv, root, ord);
                    }
                    let taken = slots[c].take();
                    match taken {
                        Some(v) => {
                            if x < n {
                                let pt = slots[x].take();
                                match pt {
                                    Some(pn) => {
                                        let ghost pn0 = pn;
                                        let mut pn = pn;
                                        pn.children.push(v);
                                        proof {
                                            assert(attaches(pv, root, ord, c, x));
                                            lemma_assembled_push(pn0, pn, x, c, v, k as int, nv, pv, root, ord);
                                        }
                                        slots.set(x, Some(pn));
                                        attached_to = Some(x);
                                    },
                                    None => {},
                                }
                            }
                        },
                        None => {},
                    }
                },
            }
        }
        proof {
            assert forall|y: int| 0 <= y < n implies ((#[trigger] slots@[y]) is Some <==> (is_anchored(pv, root, y as usize)
                || position_in(ord, y as usize) >= k + 1)) && (slots@[y] is Some ==> assembled_from(
                slots@[y]->0,
                y as usize,
                k + 1,
                nv,
                pv,
                root,
                ord,
            )) by {
                if attached_to == Some(y as usize) {
                } else if y == c {
                } else {
                    assert(slots@[y] == before[y]);
                    assert(!attaches(pv, root, ord, c, y as usize));
                    if before[y] is Some {
                        lemma_assembled_same_list(before[y]->0, y as usize, k as int, k + 1, nv, pv, root, ord);
                    }
                }
            }
        }
        k = k + 1;
    }
    match root {
        Some(r) => {
            if r < n {
                let last = slots[r].take();
                match last {
                    Some(v) => v,
                    None => fresh_dir(root_name, root_path),
                }
            } else {
                fresh_dir(root_name, root_path)
            }
        },
        None => fresh_dir(root_name, root_path),
    }
}

} // verus!
