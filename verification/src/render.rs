//! The rows of the text tree view: one row per node, in depth-first order,
//! with the box-drawing lead that shows its place in the tree.

use vstd::prelude::*;
use crate::topology::TopologyNode;

verus! {

/// One row of the tree view. A printer writes `lead`, `indicator`, a space,
/// `name`, then the size (and, as it chooses, its share of `parent_size`),
/// and the counts when `shows_counts` holds.
pub struct TreeRow {
    pub lead: String,
    pub indicator: &'static str,
    pub name: String,
    pub size: u64,
    pub parent_size: u64,
    pub file_count: u64,
    pub dir_count: u64,
    /// The node is a directory or a bucket, whose counts are worth showing.
    pub shows_counts: bool,
}

/// The content of a row as plain values.
pub type RowView = (Seq<char>, Seq<char>, Seq<char>, u64, u64, u64, u64, bool);

impl View for TreeRow {
    type V = RowView;

    open spec fn view(&self) -> RowView {
        (
            self.lead@,
            self.indicator@,
            self.name@,
            self.size,
            self.parent_size,
            self.file_count,
            self.dir_count,
            self.shows_counts,
        )
    }
}

/// The connector in front of a node: a corner for the last child, a tee otherwise.
pub open spec fn connector(is_last: bool) -> Seq<char> {
    if is_last {
        "└── "@
    } else {
        "├── "@
    }
}

/// What the children of a node are indented with.
pub open spec fn extension(is_last: bool) -> Seq<char> {
    if is_last {
        "    "@
    } else {
        "│   "@
    }
}

/// The symbol of a node: a diamond for buckets, a folder for directories, a
/// page for files.
pub open spec fn indicator(n: TopologyNode) -> Seq<char> {
    if n.is_aggregated {
        "◆"@
    } else if n.is_dir {
        "📁"@
    } else {
        "📄"@
    }
}

/// The row of node `n` drawn after `prefix`.
pub open spec fn row_of(n: TopologyNode, prefix: Seq<char>, is_last: bool, parent_size: u64) -> RowView {
    (
        prefix + connector(is_last),
        indicator(n),
        n.name@,
        n.size,
        parent_size,
        n.file_count,
        n.dir_count,
        n.is_dir || n.is_aggregated,
    )
}

/// The rows of the subtree of `n`: its own, then those of its children,
/// each drawn one level further in.
pub open spec fn rows_of(n: TopologyNode, prefix: Seq<char>, is_last: bool, parent_size: u64) -> Seq<RowView>
    decreases n,
{
    seq![row_of(n, prefix, is_last, parent_size)] + child_rows(
        n.children@,
        prefix + extension(is_last),
        n.size,
        n.children.len() as int,
    )
}

/// The rows of the subtrees of `s`, the first `s.len()` of `count` siblings.
pub open spec fn child_rows(s: Seq<TopologyNode>, prefix: Seq<char>, parent_size: u64, count: int) -> Seq<RowView>
    decreases s,
{
    if s.len() == 0 {
        Seq::empty()
    } else {
        child_rows(s.drop_last(), prefix, parent_size, count) + rows_of(
            s.last(),
            prefix,
            s.len() - 1 == count - 1,
            parent_size,
        )
    }
}

/// `rows` is `before` followed by rows with the views `added`.
pub open spec fn appended(rows: Seq<TreeRow>, before: Seq<TreeRow>, added: Seq<RowView>) -> bool {
    &&& rows.len() == before.len() + added.len()
    &&& forall|i: int| 0 <= i < before.len() ==> #[trigger] rows[i] == before[i]
    &&& forall|j: int| 0 <= j < added.len() ==> (#[trigger] rows[before.len() + j])@ == added[j]
}

fn indicator_of(n: &TopologyNode) -> (s: &'static str)
    ensures
        s@ == indicator(*n),
{
    if n.is_aggregated {
        "◆"
    } else if n.is_dir {
        "📁"
    } else {
        "📄"
    }
}

impl TopologyNode {
    /// Appends the rows of this subtree, drawn after `prefix`, to `rows`.
    pub fn push_tree_rows(&self, rows: &mut Vec<TreeRow>, prefix: &str, is_last: bool, parent_size: u64)
        ensures
            appended(final(rows)@, old(rows)@, rows_of(*self, prefix@, is_last, parent_size)),
        decreases *self,
    {
        let ghost start = rows@;
        let mut lead = String::from_str(prefix);
        if is_last {
            lead.append("└── ");
        } else {
            lead.append("├── ");
        }
        let row = TreeRow {
            lead,
            indicator: indicator_of(self),
            name: self.name.clone(),
            size: self.size,
            parent_size,
            file_count: self.file_count,
            dir_count: self.dir_count,
            shows_counts: self.is_dir || self.is_aggregated,
        };
        rows.push(row);
        let mut inner = String::from_str(prefix);
        if is_last {
            inner.append("    ");
        } else {
            inner.append("│   ");
        }
        let ghost ip = inner@;
        let ghost own = seq![row_of(*self, prefix@, is_last, parent_size)];
        let n = self.children.len();
        let mut i: usize = 0;
        while i < n
            invariant
                i <= n == self.children.len(),
                ip == inner@,
                ip == prefix@ + extension(is_last),
                appended(rows@, start, own + child_rows(self.children@.take(i as int), ip, self.size, n as int)),
            decreases n - i,
        {
            let ghost mid = rows@;
            self.children[i].push_tree_rows(rows, inner.as_str(), i + 1 == n, self.size);
            proof {
                let s = self.children@.take(i + 1);
                assert(s.drop_last() =~= self.children@.take(i as int));
                let before_rows = own + child_rows(self.children@.take(i as int), ip, self.size, n as int);
                let sub = rows_of(self.children@[i as int], ip, i + 1 == n, self.size);
                assert(own + child_rows(s, ip, self.size, n as int) =~= before_rows + sub);
                assert forall|j: int| 0 <= j < before_rows.len() + sub.len() implies (#[trigger] rows@[start.len() + j])@
                    == (before_rows + sub)[j] by {
                    if j < before_rows.len() {
                        assert(rows@[start.len() + j] == mid[start.len() + j]);
                    } else {
                        assert(rows@[start.len() + j] == rows@[mid.len() + (j - before_rows.len())]);
                    }
                }
            }
            i = i + 1;
        }
        proof {
            assert(self.children@.take(n as int) =~= self.children@);
            assert(own + child_rows(self.children@, ip, self.size, n as int) =~= rows_of(*self, prefix@, is_last, parent_size));
        }
    }

    /// The rows of the tree view of the children of this node, drawn after
    /// `prefix`, with each child's share taken of this node's size.
    pub fn tree_rows(&self, prefix: &str) -> (rows: Vec<TreeRow>)
        ensures
            rows@.len() == child_rows(self.children@, prefix@, self.size, self.children.len() as int).len(),
            forall|j: int| 0 <= j < rows@.len() ==> (#[trigger] rows@[j])@ == child_rows(
                self.children@,
                prefix@,
                self.size,
                self.children.len() as int,
            )[j],
    {
        let mut rows: Vec<TreeRow> = Vec::new();
        let n = self.children.len();
        let mut i: usize = 0;
        while i < n
            invariant
                i <= n == self.children.len(),
                appended(rows@, Seq::empty(), child_rows(self.children@.take(i as int), prefix@, self.size, n as int)),
            decreases n - i,
        {
            let ghost mid = rows@;
            self.children[i].push_tree_rows(&mut rows, prefix, i + 1 == n, self.size);
            proof {
                let s = self.children@.take(i + 1);
                assert(s.drop_last() =~= self.children@.take(i as int));
                let before_rows = child_rows(self.children@.take(i as int), prefix@, self.size, n as int);
                let sub = rows_of(self.children@[i as int], prefix@, i + 1 == n, self.size);
                assert(child_rows(s, prefix@, self.size, n as int) =~= before_rows + sub);
                assert forall|j: int| 0 <= j < before_rows.len() + sub.len() implies (#[trigger] rows@[0 + j])@
                    == (before_rows + sub)[j] by {
                    if j < before_rows.len() {
                        assert(rows@[j] == mid[j]);
                    } else {
                        assert(rows@[j] == rows@[mid.len() + (j - before_rows.len())]);
                    }
                }
            }
            i = i + 1;
        }
        proof {
            assert(self.children@.take(n as int) =~= self.children@);
            assert forall|j: int| 0 <= j < rows@.len() implies (#[trigger] rows@[j])@ == child_rows(
                self.children@,
                prefix@,
                self.size,
                self.children.len() as int,
            )[j] by {
                assert(rows@[0 + j] == rows@[j]);
            }
        }
        rows
    }
}

/// `s` begins with `q`.
pub open spec fn begins_with(s: Seq<char>, q: Seq<char>) -> bool {
    q.len() <= s.len() && s.take(q.len() as int) == q
}

/// Every row of `rows` has a lead beginning with `q`.
pub open spec fn leads_begin_with(rows: Seq<RowView>, q: Seq<char>) -> bool {
    forall|j: int| 0 <= j < rows.len() ==> begins_with(#[trigger] rows[j].0, q)
}

proof fn lemma_begins_with_longer(s: Seq<char>, q: Seq<char>, e: Seq<char>)
    requires
        begins_with(s, q + e),
    ensures
        begins_with(s, q),
{
    assert(s.take(q.len() as int) =~= (q + e).take(q.len() as int));
    assert((q + e).take(q.len() as int) =~= q);
}

proof fn lemma_child_rows_begin(s: Seq<TopologyNode>, q: Seq<char>, parent_size: u64, count: int)
    requires
        forall|i: int, il: bool, ps: u64|
            0 <= i < s.len() ==> leads_begin_with(#[trigger] rows_of(s[i], q, il, ps), q),
    ensures
        leads_begin_with(child_rows(s, q, parent_size, count), q),
    decreases s.len(),
{
    if s.len() > 0 {
        lemma_child_rows_begin(s.drop_last(), q, parent_size, count);
        let a = child_rows(s.drop_last(), q, parent_size, count);
        let b = rows_of(s.last(), q, s.len() - 1 == count - 1, parent_size);
        assert(leads_begin_with(rows_of(s[s.len() - 1], q, s.len() - 1 == count - 1, parent_size), q));
        assert forall|j: int| 0 <= j < (a + b).len() implies begins_with(#[trigger] (a + b)[j].0, q) by {
            if j < a.len() {
                assert((a + b)[j] == a[j]);
            } else {
                assert((a + b)[j] == b[j - a.len()]);
            }
        }
    }
}

/// How the rows of a subtree are drawn: the node's own row is its prefix
/// followed by a tee (`"├── "`), or by a corner (`"└── "`) for a last child;
/// every row below it begins with the prefix followed by a vertical bar and
/// three spaces (`"│   "`), so the bar goes on past the rows of a child that
/// has siblings after it, or by four spaces below a last child. The node's
/// own row shows a diamond for a bucket, a folder for a directory and a page
/// for a file, its name, size, counts and the size of its parent.
pub proof fn lemma_tree_leads(n: TopologyNode, prefix: Seq<char>, is_last: bool, parent_size: u64)
    ensures
        rows_of(n, prefix, is_last, parent_size)[0].0 == prefix + (if is_last {
            seq!['└', '─', '─', ' ']
        } else {
            seq!['├', '─', '─', ' ']
        }),
        forall|j: int|
            1 <= j < rows_of(n, prefix, is_last, parent_size).len() ==> begins_with(
                #[trigger] rows_of(n, prefix, is_last, parent_size)[j].0,
                prefix + (if is_last {
                    seq![' ', ' ', ' ', ' ']
                } else {
                    seq!['│', ' ', ' ', ' ']
                }),
            ),
        leads_begin_with(rows_of(n, prefix, is_last, parent_size), prefix),
        rows_of(n, prefix, is_last, parent_size)[0].1 == (if n.is_aggregated {
            seq!['\u{25c6}']
        } else if n.is_dir {
            seq!['\u{1f4c1}']
        } else {
            seq!['\u{1f4c4}']
        }),
        rows_of(n, prefix, is_last, parent_size)[0].2 == n.name@,
        rows_of(n, prefix, is_last, parent_size)[0].3 == n.size,
        rows_of(n, prefix, is_last, parent_size)[0].4 == parent_size,
        rows_of(n, prefix, is_last, parent_size)[0].5 == n.file_count,
        rows_of(n, prefix, is_last, parent_size)[0].6 == n.dir_count,
        rows_of(n, prefix, is_last, parent_size)[0].7 == (n.is_dir || n.is_aggregated),
    decreases n,
{
    reveal_strlit("◆");
    reveal_strlit("📁");
    reveal_strlit("📄");
    assert("◆"@ =~= seq!['\u{25c6}']);
    assert("📁"@ =~= seq!['\u{1f4c1}']);
    assert("📄"@ =~= seq!['\u{1f4c4}']);
    reveal_strlit("└── ");
    reveal_strlit("├── ");
    reveal_strlit("    ");
    reveal_strlit("│   ");
    assert(connector(true) =~= seq!['└', '─', '─', ' ']);
    assert(connector(false) =~= seq!['├', '─', '─', ' ']);
    assert(extension(true) =~= seq![' ', ' ', ' ', ' ']);
    assert(extension(false) =~= seq!['│', ' ', ' ', ' ']);
    let q = prefix + extension(is_last);
    let ch = n.children@;
    assert forall|i: int, il: bool, ps: u64| 0 <= i < ch.len() implies leads_begin_with(
        #[trigger] rows_of(ch[i], q, il, ps),
        q,
    ) by {
        lemma_tree_leads(ch[i], q, il, ps);
    }
    lemma_child_rows_begin(ch, q, n.size, n.children.len() as int);
    let cr = child_rows(ch, q, n.size, n.children.len() as int);
    let r = rows_of(n, prefix, is_last, parent_size);
    assert(r == seq![row_of(n, prefix, is_last, parent_size)] + cr);
    assert forall|j: int| 1 <= j < r.len() implies begins_with(#[trigger] r[j].0, q) by {
        assert(r[j] == cr[j - 1]);
    }
    assert forall|j: int| 0 <= j < r.len() implies begins_with(#[trigger] r[j].0, prefix) by {
        if j == 0 {
            assert(r[0].0 == prefix + connector(is_last));
            assert((prefix + connector(is_last)).take((prefix + connector(is_last)).len() as int) =~= prefix
                + connector(is_last));
            assert(begins_with(r[0].0, prefix + connector(is_last)));
            lemma_begins_with_longer(r[0].0, prefix, connector(is_last));
        } else {
            assert(begins_with(r[j].0, q));
            lemma_begins_with_longer(r[j].0, prefix, extension(is_last));
        }
    }
}

} // verus!
