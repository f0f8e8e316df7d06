//! Aggregation passes that keep a topology tree readable: collapsing small
//! items, keeping the items that cover most of the space, and limiting depth.

use vstd::prelude::*;
use crate::sort::{
    is_rearrangement, keeps_ties_in_order, lemma_sum_rearranged, lemma_sum_concat, lemma_sum_matching, sorted_by_size_desc, sum_of,
    lemma_sum_nonneg, lemma_sum_pointwise, lemma_sum_prefix, lemma_sum_push, lemma_sum_take,
    reversed, sort_by_size_desc, stably_sorted_desc, SizeKeyed,
};
use crate::json::{human_size, humansize_binary};
use crate::text::{
    dec_str, digit, digit_char, double_of, double_of_exec, nearest_double, nearest_double_exec,
    push_decimal_wide, round_half_even, round_half_even_exec, format_size, format_size_spec, push_char,
    push_decimal,
};
use crate::topology::{field_sum, is_walked, own_fn, own_value, same_identity, TopologyNode};

verus! {

/// In every walked directory, the children's sizes and counts add up within
/// 64 bits.
pub open spec fn sums_fit(n: TopologyNode) -> bool
    decreases n,
{
    if is_walked(n) {
        &&& field_sum(n.children@, 0) <= u64::MAX
        &&& field_sum(n.children@, 1) <= u64::MAX
        &&& field_sum(n.children@, 2) <= u64::MAX
        &&& forall|i: int| 0 <= i < n.children.len() ==> sums_fit(#[trigger] n.children@[i])
    } else {
        true
    }
}

/// All fields but the children agree.
pub open spec fn same_header(a: TopologyNode, b: TopologyNode) -> bool {
    &&& same_identity(a, b)
    &&& a.size == b.size
    &&& a.size_human == b.size_human
    &&& a.file_count == b.file_count
    &&& a.dir_count == b.dir_count
}

/// `o` is the bucket named `name` that stands for the nodes `members`.
pub open spec fn is_bucket(o: TopologyNode, name: Seq<char>, members: Seq<TopologyNode>) -> bool {
    &&& o.name@ == name
    &&& o.path@.len() == 0
    &&& o.size == field_sum(members, 0)
    &&& o.size_human@ == format_size_spec(o.size)
    &&& !o.is_dir
    &&& o.children@.len() == 0
    &&& o.file_count == field_sum(members, 1)
    &&& o.dir_count == field_sum(members, 2)
    &&& o.is_aggregated
    &&& o.aggregated_count == members.len()
}

/// The nodes of `s` at least `t` bytes large, in order.
pub open spec fn large_of(s: Seq<TopologyNode>, t: u64) -> Seq<TopologyNode>
    decreases s.len(),
{
    if s.len() == 0 {
        s
    } else if s.last().size >= t {
        large_of(s.drop_last(), t).push(s.last())
    } else {
        large_of(s.drop_last(), t)
    }
}

/// The nodes of `s` smaller than `t` bytes, in order.
pub open spec fn small_of(s: Seq<TopologyNode>, t: u64) -> Seq<TopologyNode>
    decreases s.len(),
{
    if s.len() == 0 {
        s
    } else if s.last().size >= t {
        small_of(s.drop_last(), t)
    } else {
        small_of(s.drop_last(), t).push(s.last())
    }
}

/// How a threshold is written in bucket names.
pub enum SizeText {
    /// As `format_size` writes it, always with two decimals (`"100.00 MiB"`).
    Fixed,
    /// As `humansize` writes it, without decimals when there are none (`"100 MiB"`).
    Compact,
}

/// The text of the size `t` in the given style.
pub open spec fn size_text(t: u64, style: SizeText) -> Seq<char> {
    match style {
        SizeText::Fixed => format_size_spec(t),
        SizeText::Compact => humansize_binary(t),
    }
}

fn size_text_of(t: u64, style: &SizeText) -> (s: String)
    ensures
        s@ == size_text(t, *style),
{
    match style {
        SizeText::Fixed => format_size(t),
        SizeText::Compact => human_size(t),
    }
}

/// The name of the bucket for `count` items below the threshold `t`.
pub open spec fn threshold_name(count: nat, t: u64, style: SizeText) -> Seq<char> {
    seq!['['] + dec_str(count) + " items below "@ + size_text(t, style) + seq![']']
}

/// `grouped` is `mid` with its items below `t` replaced by one bucket at the end.
pub open spec fn regrouped(mid: Seq<TopologyNode>, grouped: Seq<TopologyNode>, t: u64, style: SizeText) -> bool {
    let l = large_of(mid, t);
    let sm = small_of(mid, t);
    if sm.len() == 0 {
        grouped == l
    } else {
        &&& grouped.len() == l.len() + 1
        &&& grouped.take(l.len() as int) == l
        &&& is_bucket(grouped.last(), threshold_name(sm.len(), t, style), sm)
    }
}

/// `after` is `before` with threshold aggregation applied: in every walked
/// directory, bottom-up, the children below `t` bytes are collapsed into one
/// bucket and the children are then stably sorted by size, largest first.
pub open spec fn thresholded(before: TopologyNode, after: TopologyNode, t: u64, style: SizeText) -> bool
    decreases before,
{
    if !is_walked(before) {
        after == before
    } else {
        &&& same_header(before, after)
        &&& exists|mid: Seq<TopologyNode>, grouped: Seq<TopologyNode>|
            {
                &&& mid.len() == before.children.len()
                &&& forall|i: int|
                    0 <= i < before.children.len() ==> thresholded(
                        before.children@[i],
                        #[trigger] mid[i],
                        t,
                        style,
                    )
                &&& regrouped(mid, grouped, t, style)
                &&& stably_sorted_desc(grouped, after.children@)
            }
    }
}

pub proof fn lemma_own_nonneg(w: nat)
    ensures
        forall|x: TopologyNode| #[trigger] own_fn(w)(x) >= 0,
{
}

proof fn lemma_partition_sums(s: Seq<TopologyNode>, t: u64, w: nat)
    ensures
        field_sum(large_of(s, t), w) + field_sum(small_of(s, t), w) == field_sum(s, w),
    decreases s.len(),
{
    if s.len() > 0 {
        lemma_partition_sums(s.drop_last(), t, w);
        lemma_sum_push(large_of(s.drop_last(), t), s.last(), own_fn(w));
        lemma_sum_push(small_of(s.drop_last(), t), s.last(), own_fn(w));
    }
}

/// Splits `kids` into the nodes at least `t` bytes large and the others, in order.
fn partition_by_size(kids: Vec<TopologyNode>, t: u64) -> (r: (Vec<TopologyNode>, Vec<TopologyNode>))
    ensures
        r.0@ == large_of(kids@, t),
        r.1@ == small_of(kids@, t),
{
    let ghost inp = kids@;
    let mut rev = reversed(kids);
    let mut large: Vec<TopologyNode> = Vec::new();
    let mut small: Vec<TopologyNode> = Vec::new();
    let ghost mut i: int = 0;
    while rev.len() > 0
        invariant
            i + rev@.len() == inp.len(),
            0 <= i <= inp.len(),
            forall|k: int| 0 <= k < rev@.len() ==> rev@[k] == inp[inp.len() - 1 - k],
            large@ == large_of(inp.take(i), t),
            small@ == small_of(inp.take(i), t),
        decreases rev@.len(),
    {
        let x = rev.pop().unwrap();
        assert(x == inp[i]);
        proof {
            assert(inp.take(i + 1).drop_last() =~= inp.take(i));
        }
        if x.size >= t {
            large.push(x);
        } else {
            small.push(x);
        }
        proof {
            i = i + 1;
        }
    }
    assert(inp.take(i) =~= inp);
    (large, small)
}

/// The total size, file count and directory count of `members`.
pub fn totals_of(members: &Vec<TopologyNode>) -> (r: (u64, u64, u64))
    requires
        field_sum(members@, 0) <= u64::MAX,
        field_sum(members@, 1) <= u64::MAX,
        field_sum(members@, 2) <= u64::MAX,
    ensures
        r.0 == field_sum(members@, 0),
        r.1 == field_sum(members@, 1),
        r.2 == field_sum(members@, 2),
{
    let mut size: u64 = 0;
    let mut files: u64 = 0;
    let mut dirs: u64 = 0;
    let mut i: usize = 0;
    proof {
        lemma_own_nonneg(0);
        lemma_own_nonneg(1);
        lemma_own_nonneg(2);
    }
    while i < members.len()
        invariant
            i <= members.len(),
            field_sum(members@, 0) <= u64::MAX,
            field_sum(members@, 1) <= u64::MAX,
            field_sum(members@, 2) <= u64::MAX,
            forall|x: TopologyNode| #[trigger] own_fn(0)(x) >= 0,
            forall|x: TopologyNode| #[trigger] own_fn(1)(x) >= 0,
            forall|x: TopologyNode| #[trigger] own_fn(2)(x) >= 0,
            size == field_sum(members@.take(i as int), 0),
            files == field_sum(members@.take(i as int), 1),
            dirs == field_sum(members@.take(i as int), 2),
        decreases members.len() - i,
    {
        proof {
            lemma_sum_take(members@, i as int, own_fn(0));
            lemma_sum_take(members@, i as int, own_fn(1));
            lemma_sum_take(members@, i as int, own_fn(2));
            lemma_sum_prefix(members@, i + 1, own_fn(0));
            lemma_sum_prefix(members@, i + 1, own_fn(1));
            lemma_sum_prefix(members@, i + 1, own_fn(2));
        }
        size = size + members[i].size;
        files = files + members[i].file_count;
        dirs = dirs + members[i].dir_count;
        i = i + 1;
    }
    assert(members@.take(i as int) =~= members@);
    (size, files, dirs)
}

/// The total of measure `w` over `members`.
pub fn measure_total(members: &Vec<TopologyNode>, w: u64) -> (r: u64)
    requires
        w <= 2,
        field_sum(members@, w as nat) <= u64::MAX,
    ensures
        r == field_sum(members@, w as nat),
{
    let ghost f = own_fn(w as nat);
    let mut total: u64 = 0;
    let mut i: usize = 0;
    proof {
        lemma_own_nonneg(w as nat);
    }
    while i < members.len()
        invariant
            i <= members.len(),
            w <= 2,
            f == own_fn(w as nat),
            field_sum(members@, w as nat) <= u64::MAX,
            forall|x: TopologyNode| #[trigger] f(x) >= 0,
            total == sum_of(members@.take(i as int), f),
        decreases members.len() - i,
    {
        proof {
            lemma_sum_take(members@, i as int, f);
            lemma_sum_prefix(members@, i + 1, f);
        }
        let x = if w == 0 {
            members[i].size
        } else if w == 1 {
            members[i].file_count
        } else {
            members[i].dir_count
        };
        total = total + x;
        i = i + 1;
    }
    assert(members@.take(i as int) =~= members@);
    total
}

/// The bucket named `name` standing for `members`.
pub fn make_bucket(name: String, members: &Vec<TopologyNode>) -> (o: TopologyNode)
    requires
        field_sum(members@, 0) <= u64::MAX,
        field_sum(members@, 1) <= u64::MAX,
        field_sum(members@, 2) <= u64::MAX,
    ensures
        is_bucket(o, name@, members@),
{
    let (size, files, dirs) = totals_of(members);
    TopologyNode::new_aggregated(name, size, members.len() as u64, files, dirs)
}

fn threshold_bucket_name(count: u64, t: u64, style: &SizeText) -> (s: String)
    ensures
        s@ == threshold_name(count as nat, t, *style),
{
    let mut s = String::new();
    push_char(&mut s, '[');
    push_decimal(&mut s, count);
    s.append(" items below ");
    let f = size_text_of(t, style);
    s.append(f.as_str());
    push_char(&mut s, ']');
    assert(s@ =~= threshold_name(count as nat, t, *style));
    s
}

proof fn lemma_thresholded_header(before: TopologyNode, after: TopologyNode, t: u64, style: SizeText)
    requires
        thresholded(before, after, t, style),
    ensures
        same_header(before, after),
{
}

impl TopologyNode {
    /// Threshold aggregation: in every directory, bottom-up, the children
    /// smaller than `threshold` bytes are collapsed into one bucket named
    /// `"[N items below SIZE]"`, and the children are sorted by size,
    /// largest first.
    pub fn apply_threshold(&mut self, threshold: u64)
        requires
            sums_fit(*old(self)),
        ensures
            thresholded(*old(self), *final(self), threshold, SizeText::Fixed),
    {
        self.apply_threshold_with(threshold, &SizeText::Fixed);
    }

    /// Threshold aggregation, with the threshold written in `style` in the
    /// bucket names.
    pub fn apply_threshold_with(&mut self, threshold: u64, style: &SizeText)
        requires
            sums_fit(*old(self)),
        ensures
            thresholded(*old(self), *final(self), threshold, *style),
        decreases *old(self),
    {
        if !self.is_dir || self.is_aggregated {
            return;
        }
        let mut i: usize = 0;
        while i < self.children.len()
            invariant
                0 <= i <= self.children.len(),
                is_walked(*old(self)),
                sums_fit(*old(self)),
                same_header(*old(self), *self),
                self.children.len() == old(self).children.len(),
                forall|j: int|
                    i <= j < self.children.len() ==> self.children@[j] == old(self).children@[j],
                forall|j: int|
                    0 <= j < i ==> thresholded(
                        old(self).children@[j],
                        #[trigger] self.children@[j],
                        threshold,
                        *style,
                    ),
            decreases self.children.len() - i,
        {
            assert(sums_fit(old(self).children@[i as int]));
            self.children[i].apply_threshold_with(threshold, style);
            i = i + 1;
        }
        let ghost mid = self.children@;
        proof {
            assert forall|j: int| 0 <= j < mid.len() implies own_fn(0)(#[trigger] mid[j]) == own_fn(0)(old(self).children@[j])
                && own_fn(1)(mid[j]) == own_fn(1)(old(self).children@[j])
                && own_fn(2)(mid[j]) == own_fn(2)(old(self).children@[j]) by {
                lemma_thresholded_header(old(self).children@[j], mid[j], threshold, *style);
            }
            lemma_sum_pointwise(mid, old(self).children@, own_fn(0));
            lemma_sum_pointwise(mid, old(self).children@, own_fn(1));
            lemma_sum_pointwise(mid, old(self).children@, own_fn(2));
            lemma_partition_sums(mid, threshold, 0);
            lemma_partition_sums(mid, threshold, 1);
            lemma_partition_sums(mid, threshold, 2);
            lemma_own_nonneg(0);
            lemma_own_nonneg(1);
            lemma_own_nonneg(2);
            lemma_sum_nonneg(large_of(mid, threshold), own_fn(0));
            lemma_sum_nonneg(large_of(mid, threshold), own_fn(1));
            lemma_sum_nonneg(large_of(mid, threshold), own_fn(2));
        }
        let mut kids: Vec<TopologyNode> = Vec::new();
        std::mem::swap(&mut kids, &mut self.children);
        let (mut large, small) = partition_by_size(kids, threshold);
        let ghost l = large@;
        if small.len() > 0 {
            let name = threshold_bucket_name(small.len() as u64, threshold, style);
            let other = make_bucket(name, &small);
            large.push(other);
            assert(large@.take(l.len() as int) =~= l);
        }
        let sorted = sort_by_size_desc(large);
        self.children = sorted;
        assert(regrouped(mid, large@, threshold, *style));
    }
}

/// A nonnegative double `num / den` converted to `u64`: rounded down, and
/// `u64::MAX` if it is larger.
pub open spec fn floor_saturated(num: nat, den: nat) -> int {
    let v = num / den;
    if v > u64::MAX {
        u64::MAX as int
    } else {
        v as int
    }
}

/// The smallest size a child needs for coverage aggregation to descend into
/// it: `min_pct` percent of `root_size` as double arithmetic gives it (the
/// size as a double, times the percentage and rounded, divided by 100 and
/// rounded), converted to a whole number of bytes.
pub open spec fn descend_size(root_size: u64, min_pct: u32) -> int {
    let x = double_of(double_of(root_size as nat) * double_of(min_pct as nat));
    let (m, p, q) = nearest_double(x, 100);
    floor_saturated(m * q, p)
}

/// The number of bytes coverage aggregation aims to show under a directory of
/// `size` bytes, as double arithmetic gives it. The coverage, given in
/// hundredths of a percent, is taken as the double nearest to
/// `basis_points / 100` (the value a percentage written with at most two
/// decimals reads as); the size, as a double, is multiplied by it and
/// rounded, divided by 100 and rounded, and converted to a whole number of
/// bytes. Rounding a double commutes with the power-of-two scale `q1 / p1`
/// of the percentage, which is therefore applied last.
pub open spec fn coverage_target(size: u64, basis_points: u64) -> int {
    let (m1, p1, q1) = nearest_double(basis_points as nat, 100);
    let c = double_of(double_of(size as nat) * m1);
    let (m2, p2, q2) = nearest_double(c, 100);
    floor_saturated(m2 * q2 * q1, p2 * p1)
}

fn descend_size_exec(root_size: u64, min_pct: u32) -> (r: u128)
    ensures
        r == descend_size(root_size, min_pct),
{
    let rd = double_of_exec(root_size as u128);
    let md = double_of_exec(min_pct as u128);
    assert(rd * md <= 0x4_0000_0000_0000_0000_0000_0000) by (nonlinear_arith)
        requires
            rd <= 2 * (root_size as u128),
            md == min_pct,
            root_size <= u64::MAX,
            min_pct <= u32::MAX,
    ;
    let c = double_of_exec(rd * md);
    let (m, p, q) = nearest_double_exec(c, 100);
    assert(m * q <= 0x10_0000_0000_0000_0000_0000_0000) by (nonlinear_arith)
        requires
            m <= 0x20_0000_0000_0000,
            q == 1 || 0x10_0000_0000_0000 * q <= c,
            c <= 0x8_0000_0000_0000_0000_0000_0000,
    ;
    let v = (m * q) / p;
    if v > u64::MAX as u128 {
        u64::MAX as u128
    } else {
        v
    }
}

fn coverage_target_exec(size: u64, basis_points: u64) -> (r: u128)
    ensures
        r == coverage_target(size, basis_points),
{
    let (m1, p1, q1) = nearest_double_exec(basis_points as u128, 100);
    let sd = double_of_exec(size as u128);
    assert(sd * m1 <= 0x40_0000_0000_0000_0000_0000_0000_0000) by (nonlinear_arith)
        requires
            sd <= 2 * (size as u128),
            m1 <= 0x20_0000_0000_0000,
            size <= u64::MAX,
    ;
    let c = double_of_exec(sd * m1);
    let (m2, p2, q2) = nearest_double_exec(c, 100);
    assert(m2 * q2 <= 0x100_0000_0000_0000_0000_0000_0000_0000) by (nonlinear_arith)
        requires
            m2 <= 0x20_0000_0000_0000,
            q2 == 1 || 0x10_0000_0000_0000 * q2 <= c,
            c <= 0x80_0000_0000_0000_0000_0000_0000_0000,
    ;
    let a = m2 * q2;
    assert(p2 <= 0x1000_0000_0000_0000 && p1 <= 0x1000_0000_0000_0000);
    proof {
        vstd::arithmetic::mul::lemma_mul_upper_bound(
            p2 as int,
            0x1000_0000_0000_0000,
            p1 as int,
            0x1000_0000_0000_0000,
        );
        vstd::arithmetic::mul::lemma_mul_upper_bound(1, p2 as int, 1, p1 as int);
    }
    let den = p2 * p1;
    match a.checked_mul(q1) {
        Some(num) => {
            let v = num / den;
            if v > u64::MAX as u128 {
                u64::MAX as u128
            } else {
                v
            }
        },
        None => {
            assert(q1 > 1) by (nonlinear_arith)
                requires
                    a * q1 > u128::MAX,
                    a <= 0x100_0000_0000_0000_0000_0000_0000_0000,
                    q1 >= 1,
            ;
            assert(q2 > 1) by (nonlinear_arith)
                requires
                    a * q1 > u128::MAX,
                    a == m2 * q2,
                    m2 <= 0x20_0000_0000_0000,
                    q2 >= 1,
                    q1 == 1 || 0x10_0000_0000_0000 * q1 <= basis_points,
                    basis_points <= u64::MAX,
            ;
            assert(den == 1);
            assert((m2 * q2 * q1) as nat / (p2 * p1) as nat > u64::MAX) by (nonlinear_arith)
                requires
                    a * q1 > u128::MAX,
                    a == m2 * q2,
                    p2 * p1 == 1,
            ;
            u64::MAX as u128
        },
    }
}

/// A child too small to descend into loses its children; its counts are
/// then taken from those children (a directory counting itself).
pub open spec fn pruned_from(c: TopologyNode, after: TopologyNode) -> bool {
    if c.is_dir && c.children.len() > 0 {
        &&& same_identity(c, after)
        &&& after.size == c.size
        &&& after.size_human == c.size_human
        &&& after.file_count == field_sum(c.children@, 1)
        &&& after.dir_count == field_sum(c.children@, 2) + 1
        &&& after.children@.len() == 0
    } else {
        after == c
    }
}

/// Measure `w` of a child once it has been pruned or left as it is.
pub open spec fn effective_value(c: TopologyNode, w: nat, min_size: int) -> int {
    if c.size < min_size && c.is_dir && c.children.len() > 0 {
        if w == 1 {
            field_sum(c.children@, 1)
        } else if w == 2 {
            field_sum(c.children@, 2) + 1
        } else {
            c.size as int
        }
    } else {
        own_value(c, w)
    }
}

pub open spec fn effective_fn(w: nat, min_size: int) -> spec_fn(TopologyNode) -> int {
    |c: TopologyNode| effective_value(c, w, min_size)
}

/// How many of the children `s` (sorted largest first) are kept: children
/// are taken while fewer than `max_items` are kept and the kept ones cover
/// less than `target` bytes, starting from the `k`-th.
pub open spec fn keep_from(s: Seq<TopologyNode>, target: int, max_items: int, k: int) -> int
    decreases s.len() - k,
{
    if k >= s.len() || field_sum(s.take(k), 0) >= target || k >= max_items {
        k
    } else {
        keep_from(s, target, max_items, k + 1)
    }
}

/// The number of children kept: as `keep_from` counts them, but at least one.
pub open spec fn kept_count(s: Seq<TopologyNode>, target: int, max_items: int) -> int {
    let k = keep_from(s, target, max_items, 0);
    if k < 1 {
        1
    } else {
        k
    }
}

/// The share `part / whole` in tenths of a percent, as double arithmetic
/// gives it: both counts taken as doubles, their quotient rounded to the
/// nearest double, multiplied by 100 and rounded again, and the result
/// rounded to one decimal, ties to even.
pub open spec fn share_tenths(part: int, whole: int) -> nat {
    let (m, p, q) = nearest_double(double_of(part as nat), double_of(whole as nat));
    round_half_even(10 * double_of(100 * m) * q, p)
}

/// The name of the coverage bucket for `count` items holding `tenths`
/// tenths of a percent of the directory, such as `"[42 more, 3.2%]"`.
pub open spec fn coverage_name(count: nat, tenths: nat) -> Seq<char> {
    seq!['['] + dec_str(count) + " more, "@ + dec_str(tenths / 10) + seq![
        '.',
        digit_char((tenths % 10) as int),
    ] + "%]"@
}

/// `out` is `inp` stably sorted by size, largest first, as the rearrangement `p` shows.
pub open spec fn sorted_with(inp: Seq<TopologyNode>, out: Seq<TopologyNode>, p: Seq<int>) -> bool {
    &&& sorted_by_size_desc(out)
    &&& is_rearrangement(inp, out, p)
    &&& keeps_ties_in_order(out, p)
}

/// `after` is `before` with coverage aggregation applied. In a walked,
/// non-empty directory the children are stably sorted by size, largest first;
/// a child of at least `descend_size` bytes is aggregated recursively, a
/// smaller one is pruned; then the first `kept_count` children are kept and
/// the rest, if any, are collapsed into one bucket at the end.
pub open spec fn covered(
    before: TopologyNode,
    after: TopologyNode,
    basis_points: u64,
    max_items: usize,
    root_size: u64,
    min_pct: u32,
) -> bool
    decreases before,
{
    if !is_walked(before) || before.size == 0 {
        after == before
    } else {
        &&& same_header(before, after)
        &&& exists|p: Seq<int>, mid: Seq<TopologyNode>|
            {
                &&& sorted_with(before.children@, Seq::new(p.len(), |k: int| before.children@[p[k]]), p)
                &&& mid.len() == p.len()
                &&& forall|k: int|
                    0 <= k < p.len() ==> if before.children@[p[k]].size >= descend_size(
                        root_size,
                        min_pct,
                    ) {
                        covered(
                            before.children@[p[k]],
                            #[trigger] mid[k],
                            basis_points,
                            max_items,
                            root_size,
                            min_pct,
                        )
                    } else {
                        pruned_from(before.children@[p[k]], mid[k])
                    }
                &&& coverage_split(mid, after.children@, before.size, basis_points, max_items)
            }
    }
}

/// `kids` is `mid` with all but the first `kept_count` children collapsed
/// into one bucket.
pub open spec fn coverage_split(
    mid: Seq<TopologyNode>,
    kids: Seq<TopologyNode>,
    size: u64,
    basis_points: u64,
    max_items: usize,
) -> bool {
    let k = kept_count(mid, coverage_target(size, basis_points), max_items as int);
    if k < mid.len() {
        let rest = mid.skip(k);
        &&& kids.len() == k + 1
        &&& kids.take(k) == mid.take(k)
        &&& is_bucket(kids.last(), coverage_name(rest.len(), share_tenths(field_sum(rest, 0), size as int)), rest)
    } else {
        kids == mid
    }
}

/// The sums coverage aggregation computes fit in 64 bits: in every walked,
/// non-empty directory it descends into, the children's sizes and counts
/// (after pruning) and the counts of every pruned child's children.
pub open spec fn coverage_fits(n: TopologyNode, root_size: u64, min_pct: u32) -> bool
    decreases n,
{
    if is_walked(n) && n.size != 0 {
        let m = descend_size(root_size, min_pct);
        &&& sum_of(n.children@, effective_fn(0, m)) <= u64::MAX
        &&& sum_of(n.children@, effective_fn(1, m)) <= u64::MAX
        &&& sum_of(n.children@, effective_fn(2, m)) <= u64::MAX
        &&& forall|i: int|
            0 <= i < n.children.len() ==> {
                let c = #[trigger] n.children@[i];
                if c.size >= m {
                    coverage_fits(c, root_size, min_pct)
                } else {
                    c.is_dir && c.children.len() > 0 ==> field_sum(c.children@, 1) <= u64::MAX
                        && field_sum(c.children@, 2) < u64::MAX
                }
            }
    } else {
        true
    }
}

fn coverage_bucket_name(count: u64, tenths: u128) -> (s: String)
    ensures
        s@ == coverage_name(count as nat, tenths as nat),
{
    let mut s = String::new();
    push_char(&mut s, '[');
    push_decimal(&mut s, count);
    s.append(" more, ");
    push_decimal_wide(&mut s, tenths / 10);
    push_char(&mut s, '.');
    let d = digit((tenths % 10) as u64);
    push_char(&mut s, d);
    s.append("%]");
    assert(s@ =~= coverage_name(count as nat, tenths as nat));
    s
}

/// The name of the bucket replacing `count` children at the depth limit.
pub open spec fn depth_name(count: nat) -> Seq<char> {
    seq!['['] + dec_str(count) + " items, depth limit]"@
}

/// `after` is `before` with its depth limited: walking down from depth
/// `depth`, a walked directory at depth `max_depth` or deeper that has
/// children gets them replaced by one bucket.
pub open spec fn depth_limited(before: TopologyNode, after: TopologyNode, max_depth: int, depth: int) -> bool
    decreases before,
{
    if !is_walked(before) {
        after == before
    } else if depth >= max_depth && before.children.len() > 0 {
        &&& same_header(before, after)
        &&& after.children.len() == 1
        &&& is_bucket(after.children@[0], depth_name(before.children.len() as nat), before.children@)
    } else {
        &&& same_header(before, after)
        &&& after.children.len() == before.children.len()
        &&& forall|i: int|
            0 <= i < before.children.len() ==> depth_limited(
                before.children@[i],
                #[trigger] after.children@[i],
                max_depth,
                depth + 1,
            )
    }
}

/// The totals of every set of children collapsed by the depth limit fit in 64 bits.
pub open spec fn depth_fits(n: TopologyNode, max_depth: int, depth: int) -> bool
    decreases n,
{
    if !is_walked(n) {
        true
    } else if depth >= max_depth && n.children.len() > 0 {
        &&& field_sum(n.children@, 0) <= u64::MAX
        &&& field_sum(n.children@, 1) <= u64::MAX
        &&& field_sum(n.children@, 2) <= u64::MAX
    } else {
        forall|i: int|
            0 <= i < n.children.len() ==> depth_fits(#[trigger] n.children@[i], max_depth, depth + 1)
    }
}

fn depth_bucket_name(count: u64) -> (s: String)
    ensures
        s@ == depth_name(count as nat),
{
    let mut s = String::new();
    push_char(&mut s, '[');
    push_decimal(&mut s, count);
    s.append(" items, depth limit]");
    assert(s@ =~= depth_name(count as nat));
    s
}

proof fn lemma_large_items(s: Seq<TopologyNode>, t: u64)
    ensures
        forall|i: int| 0 <= i < large_of(s, t).len() ==> #[trigger] large_of(s, t)[i].size >= t,
    decreases s.len(),
{
    if s.len() > 0 {
        lemma_large_items(s.drop_last(), t);
        let prev = large_of(s.drop_last(), t);
        assert forall|i: int| 0 <= i < large_of(s, t).len() implies #[trigger] large_of(s, t)[i].size >= t by {
            if s.last().size >= t && i < prev.len() {
                assert(large_of(s, t)[i] == prev[i]);
            }
        }
    }
}

proof fn lemma_empty_sum(s: Seq<TopologyNode>, w: nat)
    requires
        s.len() == 0,
    ensures
        field_sum(s, w) == 0,
{
}

/// Threshold aggregation keeps a directory's totals: its children's sizes,
/// file counts and directory counts add up to what they did before.
pub proof fn lemma_threshold_keeps_totals(before: TopologyNode, after: TopologyNode, t: u64, style: SizeText, w: nat)
    requires
        w <= 2,
        thresholded(before, after, t, style),
        is_walked(before),
    ensures
        field_sum(after.children@, w) == field_sum(before.children@, w),
{
    let (mid, grouped) = choose|mid: Seq<TopologyNode>, grouped: Seq<TopologyNode>|
        {
            &&& mid.len() == before.children.len()
            &&& forall|i: int|
                0 <= i < before.children.len() ==> thresholded(before.children@[i], #[trigger] mid[i], t, style)
            &&& regrouped(mid, grouped, t, style)
            &&& stably_sorted_desc(grouped, after.children@)
        };
    assert forall|i: int| 0 <= i < mid.len() implies own_fn(w)(#[trigger] mid[i]) == own_fn(w)(
        before.children@[i],
    ) by {
        lemma_thresholded_header(before.children@[i], mid[i], t, style);
    }
    lemma_sum_pointwise(mid, before.children@, own_fn(w));
    lemma_partition_sums(mid, t, w);
    let l = large_of(mid, t);
    let sm = small_of(mid, t);
    if sm.len() == 0 {
        lemma_empty_sum(sm, w);
    } else {
        assert(grouped =~= l.push(grouped.last()));
        lemma_sum_push(l, grouped.last(), own_fn(w));
        if w == 0 {
            assert(own_fn(w)(grouped.last()) == field_sum(sm, w));
        } else if w == 1 {
            assert(own_fn(w)(grouped.last()) == field_sum(sm, w));
        } else {
            assert(own_fn(w)(grouped.last()) == field_sum(sm, w));
        }
    }
    let p = choose|p: Seq<int>| is_rearrangement(grouped, after.children@, p) && keeps_ties_in_order(after.children@, p);
    lemma_sum_rearranged(grouped, after.children@, p, own_fn(w));
}

/// After threshold aggregation, every child of a directory is at least the
/// threshold large or is a bucket, and the children are sorted by size,
/// largest first.
pub proof fn lemma_threshold_children(before: TopologyNode, after: TopologyNode, t: u64, style: SizeText)
    requires
        thresholded(before, after, t, style),
        is_walked(before),
    ensures
        sorted_by_size_desc(after.children@),
        forall|k: int|
            0 <= k < after.children.len() ==> (#[trigger] after.children@[k]).size >= t
                || after.children@[k].is_aggregated,
{
    let (mid, grouped) = choose|mid: Seq<TopologyNode>, grouped: Seq<TopologyNode>|
        {
            &&& mid.len() == before.children.len()
            &&& forall|i: int|
                0 <= i < before.children.len() ==> thresholded(before.children@[i], #[trigger] mid[i], t, style)
            &&& regrouped(mid, grouped, t, style)
            &&& stably_sorted_desc(grouped, after.children@)
        };
    let l = large_of(mid, t);
    lemma_large_items(mid, t);
    assert forall|j: int| 0 <= j < grouped.len() implies (#[trigger] grouped[j]).size >= t || grouped[j].is_aggregated by {
        if j < l.len() {
            assert(grouped[j] == grouped.take(l.len() as int)[j]);
        }
    }
    let p = choose|p: Seq<int>| is_rearrangement(grouped, after.children@, p) && keeps_ties_in_order(after.children@, p);
    assert forall|k: int| 0 <= k < after.children.len() implies (#[trigger] after.children@[k]).size >= t
        || after.children@[k].is_aggregated by {
        assert(after.children@[k] == grouped[p[k]]);
    }
}

proof fn lemma_keep_from_at_most(s: Seq<TopologyNode>, target: int, max_items: int, k: int)
    requires
        0 <= k <= max_items,
    ensures
        keep_from(s, target, max_items, k) <= max_items,
    decreases s.len() - k,
{
    if !(k >= s.len() || field_sum(s.take(k), 0) >= target || k >= max_items) {
        lemma_keep_from_at_most(s, target, max_items, k + 1);
    }
}

/// Coverage aggregation keeps a directory's total size, and its children's
/// file and directory counts add up to those of its children once the small
/// ones are pruned.
pub proof fn lemma_coverage_keeps_totals(
    before: TopologyNode,
    after: TopologyNode,
    basis_points: u64,
    max_items: usize,
    root_size: u64,
    min_pct: u32,
    w: nat,
)
    requires
        w <= 2,
        covered(before, after, basis_points, max_items, root_size, min_pct),
        is_walked(before),
        before.size != 0,
    ensures
        field_sum(after.children@, w) == sum_of(before.children@, effective_fn(w, descend_size(root_size, min_pct))),
        field_sum(after.children@, 0) == field_sum(before.children@, 0),
{
    let m = descend_size(root_size, min_pct);
    let kids = before.children@;
    let (p, mid) = choose|p: Seq<int>, mid: Seq<TopologyNode>|
        {
            &&& sorted_with(kids, Seq::new(p.len(), |k: int| kids[p[k]]), p)
            &&& mid.len() == p.len()
            &&& forall|k: int|
                0 <= k < p.len() ==> if kids[p[k]].size >= m {
                    covered(kids[p[k]], #[trigger] mid[k], basis_points, max_items, root_size, min_pct)
                } else {
                    pruned_from(kids[p[k]], mid[k])
                }
            &&& coverage_split(mid, after.children@, before.size, basis_points, max_items)
        };
    let sorted = Seq::new(p.len(), |k: int| kids[p[k]]);
    assert forall|k: int| 0 <= k < mid.len() implies own_fn(w)(#[trigger] mid[k]) == effective_fn(w, m)(sorted[k]) by {
        if kids[p[k]].size >= m {
            lemma_covered_header(kids[p[k]], mid[k], basis_points, max_items, root_size, min_pct);
        }
    }
    lemma_sum_matching(mid, own_fn(w), sorted, effective_fn(w, m));
    lemma_sum_rearranged(kids, sorted, p, effective_fn(w, m));
    assert forall|k: int| 0 <= k < mid.len() implies own_fn(0)(#[trigger] mid[k]) == own_fn(0)(sorted[k]) by {
        if kids[p[k]].size >= m {
            lemma_covered_header(kids[p[k]], mid[k], basis_points, max_items, root_size, min_pct);
        }
    }
    lemma_sum_pointwise(mid, sorted, own_fn(0));
    lemma_sum_rearranged(kids, sorted, p, own_fn(0));
    let k = kept_count(mid, coverage_target(before.size, basis_points), max_items as int);
    if k < mid.len() {
        let a = after.children@;
        assert(mid =~= mid.take(k) + mid.skip(k));
        assert(a =~= mid.take(k).push(a.last()));
        lemma_sum_concat(mid.take(k), mid.skip(k), own_fn(w));
        lemma_sum_concat(mid.take(k), mid.skip(k), own_fn(0));
        lemma_sum_push(mid.take(k), a.last(), own_fn(w));
        lemma_sum_push(mid.take(k), a.last(), own_fn(0));
        if w == 0 {
            assert(own_fn(w)(a.last()) == field_sum(mid.skip(k), w));
        } else if w == 1 {
            assert(own_fn(w)(a.last()) == field_sum(mid.skip(k), w));
        } else {
            assert(own_fn(w)(a.last()) == field_sum(mid.skip(k), w));
        }
    }
}

/// Coverage aggregation leaves a directory at most `max_items` children
/// plus one bucket.
pub proof fn lemma_coverage_child_limit(
    before: TopologyNode,
    after: TopologyNode,
    basis_points: u64,
    max_items: usize,
    root_size: u64,
    min_pct: u32,
)
    requires
        covered(before, after, basis_points, max_items, root_size, min_pct),
        is_walked(before),
        before.size != 0,
        max_items >= 1,
    ensures
        after.children.len() <= max_items + 1,
{
    let m = descend_size(root_size, min_pct);
    let kids = before.children@;
    let (p, mid) = choose|p: Seq<int>, mid: Seq<TopologyNode>|
        {
            &&& sorted_with(kids, Seq::new(p.len(), |k: int| kids[p[k]]), p)
            &&& mid.len() == p.len()
            &&& forall|k: int|
                0 <= k < p.len() ==> if kids[p[k]].size >= m {
                    covered(kids[p[k]], #[trigger] mid[k], basis_points, max_items, root_size, min_pct)
                } else {
                    pruned_from(kids[p[k]], mid[k])
                }
            &&& coverage_split(mid, after.children@, before.size, basis_points, max_items)
        };
    lemma_keep_from_at_most(mid, coverage_target(before.size, basis_points), max_items as int, 0);
    lemma_keep_from_bound(mid, coverage_target(before.size, basis_points), max_items as int, 0);
}

proof fn lemma_keep_from_stops(s: Seq<TopologyNode>, target: int, max_items: int, k: int)
    requires
        0 <= k <= s.len(),
        forall|i: int| 0 <= i < k ==> field_sum(#[trigger] s.take(i), 0) < target && i < max_items,
    ensures
        ({
            let j = keep_from(s, target, max_items, k);
            &&& k <= j <= s.len()
            &&& j >= s.len() || field_sum(s.take(j), 0) >= target || j >= max_items
            &&& forall|i: int| 0 <= i < j ==> field_sum(#[trigger] s.take(i), 0) < target && i < max_items
        }),
    decreases s.len() - k,
{
    if !(k >= s.len() || field_sum(s.take(k), 0) >= target || k >= max_items) {
        assert forall|i: int| 0 <= i < k + 1 implies field_sum(#[trigger] s.take(i), 0) < target && i
            < max_items by {
            if i < k {
                assert(field_sum(s.take(i), 0) < target && i < max_items);
            }
        }
        lemma_keep_from_stops(s, target, max_items, k + 1);
        assert(keep_from(s, target, max_items, k) == keep_from(s, target, max_items, k + 1));
    } else {
        assert(keep_from(s, target, max_items, k) == k);
    }
}

/// Coverage aggregation shows a directory's children largest first until
/// they cover the coverage target: the first `k` children are kept, at least
/// one, and the rest, if any, are collapsed into one bucket at the end. When
/// a bucket is made, the kept children reach the target or number
/// `max_items`; and the kept children but the last neither reach the target
/// nor number `max_items`.
pub proof fn lemma_coverage_stops_at_target(
    before: TopologyNode,
    after: TopologyNode,
    basis_points: u64,
    max_items: usize,
    root_size: u64,
    min_pct: u32,
)
    requires
        covered(before, after, basis_points, max_items, root_size, min_pct),
        is_walked(before),
        before.size != 0,
    ensures
        exists|k: int|
            {
                &&& 0 <= k <= before.children.len()
                &&& sorted_by_size_desc(#[trigger] after.children@.take(k))
                &&& (k == before.children.len() && after.children.len() == k) || (1 <= k
                    < before.children.len() && after.children.len() == k + 1
                    && after.children@.last().is_aggregated && after.children@.last().aggregated_count
                    == before.children.len() - k && (field_sum(after.children@.take(k), 0)
                    >= coverage_target(before.size, basis_points) || k >= max_items))
                &&& k >= 2 ==> field_sum(after.children@.take(k - 1), 0) < coverage_target(
                    before.size,
                    basis_points,
                ) && k - 1 < max_items
            },
{
    let m = descend_size(root_size, min_pct);
    let kids0 = before.children@;
    let (p, mid) = choose|p: Seq<int>, mid: Seq<TopologyNode>|
        {
            &&& sorted_with(kids0, Seq::new(p.len(), |k: int| kids0[p[k]]), p)
            &&& mid.len() == p.len()
            &&& forall|k: int|
                0 <= k < p.len() ==> if kids0[p[k]].size >= m {
                    covered(kids0[p[k]], #[trigger] mid[k], basis_points, max_items, root_size, min_pct)
                } else {
                    pruned_from(kids0[p[k]], mid[k])
                }
            &&& coverage_split(mid, after.children@, before.size, basis_points, max_items)
        };
    let sorted = Seq::new(p.len(), |k: int| kids0[p[k]]);
    assert forall|k: int| 0 <= k < mid.len() implies (#[trigger] mid[k]).size == sorted[k].size by {
        if kids0[p[k]].size >= m {
            lemma_covered_header(kids0[p[k]], mid[k], basis_points, max_items, root_size, min_pct);
        }
    }
    assert(sorted_by_size_desc(mid)) by {
        assert forall|i: int, j: int| 0 <= i < j < mid.len() implies #[trigger] mid[i].size_key()
            >= #[trigger] mid[j].size_key() by {
            assert(sorted[i].size_key() >= sorted[j].size_key());
        }
    }
    let target = coverage_target(before.size, basis_points);
    lemma_keep_from_stops(mid, target, max_items as int, 0);
    let j = keep_from(mid, target, max_items as int, 0);
    let kk = kept_count(mid, target, max_items as int);
    let a = after.children@;
    if kk < mid.len() {
        assert(a.take(kk) =~= mid.take(kk));
        lemma_own_nonneg(0);
        lemma_sum_nonneg(a.take(kk), own_fn(0));
        if kk >= 2 {
            assert(a.take(kk).take(kk - 1) =~= mid.take(kk - 1));
            assert(a.take(kk - 1) =~= mid.take(kk - 1));
        }
        assert(sorted_by_size_desc(a.take(kk))) by {
            assert forall|i: int, l: int| 0 <= i < l < a.take(kk).len() implies #[trigger] a.take(kk)[i].size_key()
                >= #[trigger] a.take(kk)[l].size_key() by {
                assert(a.take(kk)[i] == mid[i] && a.take(kk)[l] == mid[l]);
            }
        }
        assert(field_sum(a.take(kk), 0) >= target || kk >= max_items);
    } else {
        assert(a == mid);
        let n = mid.len() as int;
        assert(a.take(n) =~= a);
        if n >= 2 {
            assert(j == n);
        }
    }
}

/// A child's counts are those of its children (and itself, for its
/// directory count), as computing the counts leaves every directory that
/// has children.
pub open spec fn counts_from_children(c: TopologyNode) -> bool {
    c.is_dir && c.children.len() > 0 ==> c.file_count == field_sum(c.children@, 1) && c.dir_count
        == field_sum(c.children@, 2) + 1
}

/// Coverage aggregation keeps a directory's size and counts, and the sums of
/// its children's sizes, file counts and directory counts, when the counts
/// of its children with children are those of their children.
pub proof fn lemma_coverage_keeps_child_sums(
    before: TopologyNode,
    after: TopologyNode,
    basis_points: u64,
    max_items: usize,
    root_size: u64,
    min_pct: u32,
    w: nat,
)
    requires
        w <= 2,
        covered(before, after, basis_points, max_items, root_size, min_pct),
        forall|i: int| 0 <= i < before.children.len() ==> counts_from_children(#[trigger] before.children@[i]),
    ensures
        same_header(before, after),
        field_sum(after.children@, w) == field_sum(before.children@, w),
{
    if is_walked(before) && before.size != 0 {
        let m = descend_size(root_size, min_pct);
        lemma_coverage_keeps_totals(before, after, basis_points, max_items, root_size, min_pct, w);
        let s = before.children@;
        assert forall|i: int| 0 <= i < s.len() implies effective_fn(w, m)(#[trigger] s[i]) == own_fn(w)(s[i]) by {
            assert(counts_from_children(s[i]));
        }
        lemma_sum_matching(s, effective_fn(w, m), s, own_fn(w));
    }
}

proof fn lemma_partition_lens(a: Seq<TopologyNode>, b: Seq<TopologyNode>, t: u64)
    requires
        a.len() == b.len(),
        forall|i: int| 0 <= i < a.len() ==> (#[trigger] a[i]).size == b[i].size,
    ensures
        large_of(a, t).len() == large_of(b, t).len(),
        small_of(a, t).len() == small_of(b, t).len(),
    decreases a.len(),
{
    if a.len() > 0 {
        lemma_partition_lens(a.drop_last(), b.drop_last(), t);
        assert(a.last().size == b.last().size);
    }
}

/// Threshold aggregation keeps a directory's size and counts and the sums
/// of its children's sizes, file counts and directory counts, and leaves it
/// one child for each child of at least the threshold, and one bucket more
/// if any child is smaller.
pub proof fn lemma_threshold_child_count(before: TopologyNode, after: TopologyNode, t: u64, style: SizeText)
    requires
        thresholded(before, after, t, style),
        is_walked(before),
    ensures
        same_header(before, after),
        forall|w: nat| w <= 2 ==> #[trigger] field_sum(after.children@, w) == field_sum(before.children@, w),
        after.children.len() == large_of(before.children@, t).len() + (if small_of(
            before.children@,
            t,
        ).len() > 0 {
            1int
        } else {
            0int
        }),
{
    let (mid, grouped) = choose|mid: Seq<TopologyNode>, grouped: Seq<TopologyNode>|
        {
            &&& mid.len() == before.children.len()
            &&& forall|i: int|
                0 <= i < before.children.len() ==> thresholded(before.children@[i], #[trigger] mid[i], t, style)
            &&& regrouped(mid, grouped, t, style)
            &&& stably_sorted_desc(grouped, after.children@)
        };
    assert forall|i: int| 0 <= i < mid.len() implies (#[trigger] mid[i]).size == before.children@[i].size by {
        lemma_thresholded_header(before.children@[i], mid[i], t, style);
    }
    lemma_partition_lens(mid, before.children@, t);
    let p = choose|p: Seq<int>| is_rearrangement(grouped, after.children@, p) && keeps_ties_in_order(after.children@, p);
    assert(grouped.len() == after.children.len());
    assert forall|w: nat| w <= 2 implies #[trigger] field_sum(after.children@, w) == field_sum(before.children@, w) by {
        lemma_threshold_keeps_totals(before, after, t, style, w);
    }
}

/// Limiting the depth keeps every directory's totals: the children's sizes,
/// file counts and directory counts add up to what they did before.
pub proof fn lemma_depth_keeps_totals(before: TopologyNode, after: TopologyNode, max_depth: int, depth: int, w: nat)
    requires
        w <= 2,
        depth_limited(before, after, max_depth, depth),
        is_walked(before),
    ensures
        field_sum(after.children@, w) == field_sum(before.children@, w),
{
    if depth >= max_depth && before.children.len() > 0 {
        let a = after.children@;
        assert(a =~= Seq::<TopologyNode>::empty().push(a[0]));
        lemma_sum_push(Seq::<TopologyNode>::empty(), a[0], own_fn(w));
        if w == 0 {
            assert(own_fn(w)(a[0]) == field_sum(before.children@, w));
        } else if w == 1 {
            assert(own_fn(w)(a[0]) == field_sum(before.children@, w));
        } else {
            assert(own_fn(w)(a[0]) == field_sum(before.children@, w));
        }
    } else {
        assert forall|i: int| 0 <= i < after.children.len() implies own_fn(w)(#[trigger] after.children@[i])
            == own_fn(w)(before.children@[i]) by {
            assert(depth_limited(before.children@[i], after.children@[i], max_depth, depth + 1));
        }
        lemma_sum_pointwise(after.children@, before.children@, own_fn(w));
    }
}

/// No directory below depth `max_depth` is shown: walking down from depth
/// `depth`, every walked directory at depth `max_depth` or deeper has only
/// buckets without children as its children.
pub open spec fn within_depth(n: TopologyNode, max_depth: int, depth: int) -> bool
    decreases n,
{
    if !is_walked(n) {
        true
    } else if depth >= max_depth {
        forall|i: int|
            0 <= i < n.children.len() ==> (#[trigger] n.children@[i]).is_aggregated
                && n.children@[i].children.len() == 0
    } else {
        forall|i: int|
            0 <= i < n.children.len() ==> within_depth(#[trigger] n.children@[i], max_depth, depth + 1)
    }
}

/// Limiting the depth leaves nothing below the limit: every directory at
/// depth `max_depth` or deeper holds at most one bucket and nothing else.
pub proof fn lemma_depth_limit_bounds_tree(before: TopologyNode, after: TopologyNode, max_depth: int, depth: int)
    requires
        depth_limited(before, after, max_depth, depth),
    ensures
        within_depth(after, max_depth, depth),
        is_walked(after) && depth >= max_depth ==> after.children.len() <= 1,
    decreases before,
{
    if is_walked(before) {
        if depth >= max_depth && before.children.len() > 0 {
        } else {
            assert forall|i: int| 0 <= i < after.children.len() implies within_depth(
                #[trigger] after.children@[i],
                max_depth,
                depth + 1,
            ) by {
                lemma_depth_limit_bounds_tree(before.children@[i], after.children@[i], max_depth, depth + 1);
            }
        }
    }
}

proof fn lemma_covered_header(
    before: TopologyNode,
    after: TopologyNode,
    basis_points: u64,
    max_items: usize,
    root_size: u64,
    min_pct: u32,
)
    requires
        covered(before, after, basis_points, max_items, root_size, min_pct),
    ensures
        same_header(before, after),
{
}

proof fn lemma_keep_from_bound(s: Seq<TopologyNode>, target: int, max_items: int, k: int)
    requires
        0 <= k <= s.len(),
    ensures
        k <= keep_from(s, target, max_items, k) <= s.len(),
    decreases s.len() - k,
{
    if !(k >= s.len() || field_sum(s.take(k), 0) >= target || k >= max_items) {
        lemma_keep_from_bound(s, target, max_items, k + 1);
    }
}

impl TopologyNode {
    /// Limits the depth of the tree: walking down from depth `current_depth`,
    /// the children of every directory at depth `max_depth` or deeper are
    /// replaced by one bucket named `"[N items, depth limit]"`.
    pub fn limit_depth(&mut self, max_depth: usize, current_depth: usize)
        requires
            depth_fits(*old(self), max_depth as int, current_depth as int),
        ensures
            depth_limited(*old(self), *final(self), max_depth as int, current_depth as int),
        decreases *old(self),
    {
        if !self.is_dir || self.is_aggregated {
            return;
        }
        if current_depth >= max_depth && self.children.len() > 0 {
            let count = self.children.len() as u64;
            let name = depth_bucket_name(count);
            let other = make_bucket(name, &self.children);
            let mut kids: Vec<TopologyNode> = Vec::new();
            kids.push(other);
            self.children = kids;
        } else {
            let mut i: usize = 0;
            while i < self.children.len()
                invariant
                    0 <= i <= self.children.len(),
                    is_walked(*old(self)),
                    !(current_depth >= max_depth && old(self).children.len() > 0),
                    depth_fits(*old(self), max_depth as int, current_depth as int),
                    same_header(*old(self), *self),
                    self.children.len() == old(self).children.len(),
                    forall|j: int| i <= j < self.children.len() ==> self.children@[j] == old(self).children@[j],
                    forall|j: int|
                        0 <= j < i ==> depth_limited(
                            old(self).children@[j],
                            #[trigger] self.children@[j],
                            max_depth as int,
                            current_depth + 1,
                        ),
                decreases self.children.len() - i,
            {
                assert(depth_fits(old(self).children@[i as int], max_depth as int, current_depth + 1));
                self.children[i].limit_depth(max_depth, current_depth + 1);
                i = i + 1;
            }
        }
    }

    /// Drops the children of a directory, taking its counts from them.
    fn prune(&mut self)
        requires
            old(self).is_dir && old(self).children.len() > 0 ==> field_sum(old(self).children@, 1)
                <= u64::MAX && field_sum(old(self).children@, 2) < u64::MAX,
        ensures
            pruned_from(*old(self), *final(self)),
    {
        if self.is_dir && self.children.len() > 0 {
            let files = measure_total(&self.children, 1);
            let dirs = measure_total(&self.children, 2);
            self.file_count = files;
            self.dir_count = dirs + 1;
            self.children.clear();
        }
    }

    /// Coverage aggregation with the defaults: at most 15 children kept per
    /// directory, and only children of at least 1% of this node's size
    /// aggregated recursively. `basis_points` is the coverage in hundredths
    /// of a percent (9700 for 97%).
    pub fn apply_coverage(&mut self, basis_points: u64)
        requires
            coverage_fits(*old(self), old(self).size, 1),
        ensures
            covered(*old(self), *final(self), basis_points, 15, old(self).size, 1),
    {
        let root_size = self.size;
        self.apply_coverage_recursive(basis_points, 15, root_size, 1);
    }

    /// Coverage aggregation: sorts the children by size, largest first,
    /// descends into those of at least `min_pct` percent of `root_size` and
    /// prunes the others, then keeps children until they cover
    /// `basis_points` hundredths of a percent of this node's size or
    /// `max_items` are kept (at least one), and collapses the rest into a
    /// bucket named `"[N more, P%]"`.
    pub fn apply_coverage_recursive(
        &mut self,
        basis_points: u64,
        max_items: usize,
        root_size: u64,
        min_pct: u32,
    )
        requires
            coverage_fits(*old(self), root_size, min_pct),
        ensures
            covered(*old(self), *final(self), basis_points, max_items, root_size, min_pct),
        decreases *old(self),
    {
        if !self.is_dir || self.is_aggregated || self.size == 0 {
            return;
        }
        let ghost kids0 = self.children@;
        let ghost m = descend_size(root_size, min_pct);
        let mut kids: Vec<TopologyNode> = Vec::new();
        std::mem::swap(&mut kids, &mut self.children);
        let sorted = sort_by_size_desc(kids);
        let ghost sorted_v = sorted@;
        let ghost p = choose|p: Seq<int>|
            is_rearrangement(kids0, sorted_v, p) && keeps_ties_in_order(sorted_v, p);
        proof {
            assert(sorted_v =~= Seq::new(p.len(), |k: int| kids0[p[k]]));
        }
        self.children = sorted;
        let min_size: u128 = descend_size_exec(root_size, min_pct);
        assert(min_size == m);
        let mut i: usize = 0;
        while i < self.children.len()
            invariant
                0 <= i <= self.children.len(),
                is_walked(*old(self)),
                old(self).size != 0,
                kids0 == old(self).children@,
                coverage_fits(*old(self), root_size, min_pct),
                m == descend_size(root_size, min_pct),
                min_size == m,
                same_header(*old(self), *self),
                is_rearrangement(kids0, sorted_v, p),
                self.children.len() == sorted_v.len(),
                forall|j: int| i <= j < self.children.len() ==> self.children@[j] == sorted_v[j],
                forall|j: int|
                    0 <= j < i ==> if sorted_v[j].size >= m {
                        covered(
                            sorted_v[j],
                            #[trigger] self.children@[j],
                            basis_points,
                            max_items,
                            root_size,
                            min_pct,
                        )
                    } else {
                        pruned_from(sorted_v[j], self.children@[j])
                    },
            decreases self.children.len() - i,
        {
            assert(sorted_v[i as int] == kids0[p[i as int]]);
            assert(0 <= p[i as int] < kids0.len());
            let ghost c = kids0[p[i as int]];
            if (self.children[i].size as u128) >= min_size {
                assert(coverage_fits(c, root_size, min_pct));
                self.children[i].apply_coverage_recursive(basis_points, max_items, root_size, min_pct);
            } else {
                self.children[i].prune();
            }
            i = i + 1;
        }
        let ghost mid = self.children@;
        proof {
            let ghost eff0 = effective_fn(0, m);
            assert forall|k: int| 0 <= k < mid.len() implies same_header(sorted_v[k], #[trigger] mid[k])
                || pruned_from(sorted_v[k], mid[k]) by {
                if sorted_v[k].size >= m {
                    lemma_covered_header(sorted_v[k], mid[k], basis_points, max_items, root_size, min_pct);
                }
            }
            assert forall|k: int| 0 <= k < mid.len() implies own_fn(0)(#[trigger] mid[k])
                == effective_fn(0, m)(sorted_v[k]) by {
                if sorted_v[k].size >= m {
                    lemma_covered_header(sorted_v[k], mid[k], basis_points, max_items, root_size, min_pct);
                }
            }
            assert forall|k: int| 0 <= k < mid.len() implies own_fn(1)(#[trigger] mid[k])
                == effective_fn(1, m)(sorted_v[k]) by {
                if sorted_v[k].size >= m {
                    lemma_covered_header(sorted_v[k], mid[k], basis_points, max_items, root_size, min_pct);
                }
            }
            assert forall|k: int| 0 <= k < mid.len() implies own_fn(2)(#[trigger] mid[k])
                == effective_fn(2, m)(sorted_v[k]) by {
                if sorted_v[k].size >= m {
                    lemma_covered_header(sorted_v[k], mid[k], basis_points, max_items, root_size, min_pct);
                }
            }
            lemma_sum_matching(mid, own_fn(0), sorted_v, effective_fn(0, m));
            lemma_sum_rearranged(kids0, sorted_v, p, effective_fn(0, m));
            lemma_sum_matching(mid, own_fn(1), sorted_v, effective_fn(1, m));
            lemma_sum_rearranged(kids0, sorted_v, p, effective_fn(1, m));
            lemma_sum_matching(mid, own_fn(2), sorted_v, effective_fn(2, m));
            lemma_sum_rearranged(kids0, sorted_v, p, effective_fn(2, m));
            lemma_own_nonneg(0);
            lemma_own_nonneg(1);
            lemma_own_nonneg(2);
        }
        let ghost target_i = coverage_target(self.size, basis_points);
        let target: u128 = coverage_target_exec(self.size, basis_points);
        assert(target == target_i);
        let mut covered_size: u64 = 0;
        let mut keep: usize = 0;
        while keep < self.children.len() && (covered_size as u128) < target && keep < max_items
            invariant
                keep <= self.children.len(),
                self.children@ == mid,
                target == target_i,
                field_sum(mid, 0) <= u64::MAX,
                forall|x: TopologyNode| #[trigger] own_fn(0)(x) >= 0,
                covered_size == field_sum(mid.take(keep as int), 0),
                keep_from(mid, target_i, max_items as int, 0) == keep_from(mid, target_i, max_items as int, keep as int),
            decreases self.children.len() - keep,
        {
            proof {
                lemma_sum_take(mid, keep as int, own_fn(0));
                lemma_sum_prefix(mid, keep + 1, own_fn(0));
            }
            covered_size = covered_size + self.children[keep].size;
            keep = keep + 1;
        }
        assert(keep_from(mid, target_i, max_items as int, keep as int) == keep);
        if keep < 1 {
            keep = 1;
        }
        assert(keep == kept_count(mid, target_i, max_items as int));
        if keep < self.children.len() {
            let rest = self.children.split_off(keep);
            proof {
                assert(mid =~= mid.take(keep as int) + mid.skip(keep as int));
                assert(rest@ =~= mid.skip(keep as int));
                lemma_sum_concat(mid.take(keep as int), mid.skip(keep as int), own_fn(0));
                lemma_sum_concat(mid.take(keep as int), mid.skip(keep as int), own_fn(1));
                lemma_sum_concat(mid.take(keep as int), mid.skip(keep as int), own_fn(2));
                lemma_sum_nonneg(mid.take(keep as int), own_fn(0));
                lemma_sum_nonneg(mid.take(keep as int), own_fn(1));
                lemma_sum_nonneg(mid.take(keep as int), own_fn(2));
            }
            let (other_size, other_files, other_dirs) = totals_of(&rest);
            let part = double_of_exec(other_size as u128);
            let whole = double_of_exec(self.size as u128);
            let (m, p, q) = nearest_double_exec(part, whole);
            let c = double_of_exec(100 * m);
            assert(10 * c * q <= 0x1_0000_0000_0000_0000_0000) by (nonlinear_arith)
                requires
                    c <= 2 * (100 * m),
                    m <= 0x20_0000_0000_0000,
                    q <= 0x4000,
            ;
            let tenths = round_half_even_exec(10 * c * q, p);
            assert(tenths == share_tenths(field_sum(rest@, 0), self.size as int));
            let count = rest.len() as u64;
            let name = coverage_bucket_name(count, tenths);
            let other = TopologyNode::new_aggregated(name, other_size, count, other_files, other_dirs);
            self.children.push(other);
            proof {
                assert(self.children@.take(keep as int) =~= mid.take(keep as int));
            }
        }
        proof {
            let sv = Seq::new(p.len(), |k: int| kids0[p[k]]);
            assert(sv =~= sorted_v);
            assert(coverage_split(mid, self.children@, old(self).size, basis_points, max_items));
        }
    }
}

} // verus!
