//! Stable ordering by size, largest first, and sums over sequences.

use vstd::prelude::*;

verus! {

/// Items that are ordered by a size.
pub trait SizeKeyed {
    spec fn size_key(&self) -> u64;

    fn key(&self) -> (k: u64)
        ensures
            k == self.size_key(),
    ;
}

/// The sum of `f` over the items of `s`.
pub open spec fn sum_of<T>(s: Seq<T>, f: spec_fn(T) -> int) -> int
    decreases s.len(),
{
    if s.len() == 0 {
        0
    } else {
        sum_of(s.drop_last(), f) + f(s.last())
    }
}

/// Sizes never increase along `s`.
pub open spec fn sorted_by_size_desc<T: SizeKeyed>(s: Seq<T>) -> bool {
    forall|i: int, j: int| 0 <= i < j < s.len() ==> #[trigger] s[i].size_key() >= #[trigger] s[j].size_key()
}

/// `p` shows that `out` holds the items of `inp` rearranged: `out[k]` is
/// `inp[p[k]]`, and no item of `inp` is used twice.
pub open spec fn is_rearrangement<T>(inp: Seq<T>, out: Seq<T>, p: Seq<int>) -> bool {
    &&& p.len() == out.len() == inp.len()
    &&& forall|k: int| 0 <= k < p.len() ==> 0 <= #[trigger] p[k] < inp.len()
    &&& forall|k: int| 0 <= k < p.len() ==> out[k] == inp[#[trigger] p[k]]
    &&& forall|k: int, l: int| 0 <= k < l < p.len() ==> #[trigger] p[k] != #[trigger] p[l]
    &&& forall|j: int| 0 <= j < inp.len() ==> #[trigger] index_used(p, j)
}

/// Some entry of `p` is `j`.
pub open spec fn index_used(p: Seq<int>, j: int) -> bool {
    exists|k: int| 0 <= k < p.len() && #[trigger] p[k] == j
}

/// Items of equal size keep their relative order under the rearrangement `p`.
pub open spec fn keeps_ties_in_order<T: SizeKeyed>(out: Seq<T>, p: Seq<int>) -> bool {
    forall|k: int, l: int|
        0 <= k < l < p.len() && out[k].size_key() == out[l].size_key() ==> #[trigger] p[k] < #[trigger] p[l]
}

/// `out` is `inp` stably sorted by size, largest first.
pub open spec fn stably_sorted_desc<T: SizeKeyed>(inp: Seq<T>, out: Seq<T>) -> bool {
    &&& sorted_by_size_desc(out)
    &&& exists|p: Seq<int>| is_rearrangement(inp, out, p) && keeps_ties_in_order(out, p)
}

pub proof fn lemma_sum_concat<T>(a: Seq<T>, b: Seq<T>, f: spec_fn(T) -> int)
    ensures
        sum_of(a + b, f) == sum_of(a, f) + sum_of(b, f),
    decreases b.len(),
{
    if b.len() == 0 {
        assert(a + b =~= a);
    } else {
        assert((a + b).drop_last() =~= a + b.drop_last());
        lemma_sum_concat(a, b.drop_last(), f);
    }
}

pub proof fn lemma_sum_take<T>(s: Seq<T>, i: int, f: spec_fn(T) -> int)
    requires
        0 <= i < s.len(),
    ensures
        sum_of(s.take(i + 1), f) == sum_of(s.take(i), f) + f(s[i]),
{
    assert(s.take(i + 1).drop_last() =~= s.take(i));
}

pub proof fn lemma_sum_push<T>(s: Seq<T>, x: T, f: spec_fn(T) -> int)
    ensures
        sum_of(s.push(x), f) == sum_of(s, f) + f(x),
{
    assert(s.push(x).drop_last() =~= s);
}

pub proof fn lemma_sum_insert<T>(s: Seq<T>, i: int, x: T, f: spec_fn(T) -> int)
    requires
        0 <= i <= s.len(),
    ensures
        sum_of(s.insert(i, x), f) == sum_of(s, f) + f(x),
{
    assert(s.insert(i, x) =~= s.take(i).push(x) + s.skip(i));
    assert(s =~= s.take(i) + s.skip(i));
    lemma_sum_concat(s.take(i).push(x), s.skip(i), f);
    lemma_sum_concat(s.take(i), s.skip(i), f);
    lemma_sum_push(s.take(i), x, f);
}

pub proof fn lemma_sum_remove<T>(s: Seq<T>, i: int, f: spec_fn(T) -> int)
    requires
        0 <= i < s.len(),
    ensures
        sum_of(s, f) == sum_of(s.remove(i), f) + f(s[i]),
{
    assert(s.remove(i).insert(i, s[i]) =~= s);
    lemma_sum_insert(s.remove(i), i, s[i], f);
}

pub proof fn lemma_sum_nonneg<T>(s: Seq<T>, f: spec_fn(T) -> int)
    requires
        forall|x: T| #[trigger] f(x) >= 0,
    ensures
        sum_of(s, f) >= 0,
    decreases s.len(),
{
    if s.len() > 0 {
        lemma_sum_nonneg(s.drop_last(), f);
    }
}

pub proof fn lemma_sum_prefix<T>(s: Seq<T>, i: int, f: spec_fn(T) -> int)
    requires
        0 <= i <= s.len(),
        forall|x: T| #[trigger] f(x) >= 0,
    ensures
        0 <= sum_of(s.take(i), f) <= sum_of(s, f),
{
    assert(s =~= s.take(i) + s.skip(i));
    lemma_sum_concat(s.take(i), s.skip(i), f);
    lemma_sum_nonneg(s.take(i), f);
    lemma_sum_nonneg(s.skip(i), f);
}

/// Sums agree on sequences that agree item by item on `f`.
pub proof fn lemma_sum_pointwise<T>(a: Seq<T>, b: Seq<T>, f: spec_fn(T) -> int)
    requires
        a.len() == b.len(),
        forall|i: int| 0 <= i < a.len() ==> f(#[trigger] a[i]) == f(b[i]),
    ensures
        sum_of(a, f) == sum_of(b, f),
{
    lemma_sum_matching(a, f, b, f);
}

/// The sum of `f` over `a` equals the sum of `g` over `b` when they agree item by item.
pub proof fn lemma_sum_matching<T>(a: Seq<T>, f: spec_fn(T) -> int, b: Seq<T>, g: spec_fn(T) -> int)
    requires
        a.len() == b.len(),
        forall|i: int| 0 <= i < a.len() ==> f(#[trigger] a[i]) == g(b[i]),
    ensures
        sum_of(a, f) == sum_of(b, g),
    decreases a.len(),
{
    if a.len() > 0 {
        lemma_sum_matching(a.drop_last(), f, b.drop_last(), g);
        assert(f(a[a.len() - 1]) == g(b[a.len() - 1]));
    }
}

/// A sum of `f` is at most the sum of `g` when `f` is at most `g` item by item.
pub proof fn lemma_sum_le<T>(s: Seq<T>, f: spec_fn(T) -> int, g: spec_fn(T) -> int)
    requires
        forall|i: int| 0 <= i < s.len() ==> f(#[trigger] s[i]) <= g(s[i]),
    ensures
        sum_of(s, f) <= sum_of(s, g),
    decreases s.len(),
{
    if s.len() > 0 {
        lemma_sum_le(s.drop_last(), f, g);
        assert(f(s[s.len() - 1]) <= g(s[s.len() - 1]));
    }
}

/// A rearrangement keeps every sum.
pub proof fn lemma_sum_rearranged<T>(inp: Seq<T>, out: Seq<T>, p: Seq<int>, f: spec_fn(T) -> int)
    requires
        is_rearrangement(inp, out, p),
    ensures
        sum_of(out, f) == sum_of(inp, f),
    decreases out.len(),
{
    if out.len() > 0 {
        let n = out.len() - 1;
        let j = p[n];
        let inp2 = inp.remove(j);
        let out2 = out.drop_last();
        let p2 = Seq::new(n as nat, |k: int| if p[k] > j { p[k] - 1 } else { p[k] });
        assert forall|k: int| 0 <= k < p2.len() implies 0 <= #[trigger] p2[k] < inp2.len() by {
            assert(p[k] != p[n]);
        }
        assert forall|k: int| 0 <= k < p2.len() implies out2[k] == inp2[#[trigger] p2[k]] by {
            assert(p[k] != p[n]);
            assert(out[k] == inp[p[k]]);
        }
        assert forall|k: int, l: int| 0 <= k < l < p2.len() implies #[trigger] p2[k] != #[trigger] p2[l] by {
            assert(p[k] != p[l]);
            assert(p[k] != p[n]);
            assert(p[l] != p[n]);
        }
        assert forall|x: int| 0 <= x < inp2.len() implies #[trigger] index_used(p2, x) by {
            let y = if x < j { x } else { x + 1 };
            assert(index_used(p, y));
            let k0 = choose|k: int| 0 <= k < p.len() && #[trigger] p[k] == y;
            assert(k0 != n);
            assert(p2[k0] == x);
        }
        lemma_sum_rearranged(inp2, out2, p2, f);
        lemma_sum_remove(inp, j, f);
        assert(out[n] == inp[j]);
    }
}

/// The items of `v` in reverse order, so that popping yields them first to last.
pub fn reversed<T>(v: Vec<T>) -> (r: Vec<T>)
    ensures
        r@.len() == v@.len(),
        forall|k: int| 0 <= k < v@.len() ==> #[trigger] r@[k] == v@[v@.len() - 1 - k],
{
    let ghost inp = v@;
    let mut rev: Vec<T> = Vec::new();
    let mut v = v;
    while v.len() > 0
        invariant
            v@.len() + rev@.len() == inp.len(),
            forall|k: int| 0 <= k < v@.len() ==> v@[k] == inp[k],
            forall|k: int| 0 <= k < rev@.len() ==> rev@[k] == inp[inp.len() - 1 - k],
        decreases v@.len(),
    {
        let x = v.pop().unwrap();
        rev.push(x);
    }
    rev
}

/// Sorts by size, largest first, keeping items of equal size in their order.
pub fn sort_by_size_desc<T: SizeKeyed>(v: Vec<T>) -> (out: Vec<T>)
    ensures
        stably_sorted_desc(v@, out@),
{
    let ghost inp = v@;
    let mut rev = reversed(v);
    let mut out: Vec<T> = Vec::new();
    let ghost mut p: Seq<int> = Seq::empty();
    let ghost mut i: int = 0;
    while rev.len() > 0
        invariant
            i + rev@.len() == inp.len(),
            0 <= i <= inp.len(),
            forall|k: int| 0 <= k < rev@.len() ==> rev@[k] == inp[inp.len() - 1 - k],
            sorted_by_size_desc(out@),
            is_rearrangement(inp.take(i), out@, p),
            keeps_ties_in_order(out@, p),
        decreases rev@.len(),
    {
        let x = rev.pop().unwrap();
        assert(x == inp[i]);
        let kx = x.key();
        let mut pos: usize = 0;
        while pos < out.len() && out[pos].key() >= kx
            invariant
                pos <= out@.len(),
                forall|k: int| 0 <= k < pos ==> #[trigger] out@[k].size_key() >= kx,
            decreases out@.len() - pos,
        {
            pos = pos + 1;
        }
        proof {
            if pos < out@.len() {
                assert(out@[pos as int].size_key() < kx);
            }
        }
        let ghost old_out = out@;
        let ghost old_p = p;
        out.insert(pos, x);
        proof {
            p = old_p.insert(pos as int, i);
            assert(out@ =~= old_out.insert(pos as int, x));
            assert forall|a: int, b: int| 0 <= a < b < out@.len() implies #[trigger] out@[a].size_key() >= #[trigger] out@[b].size_key() by {
                if b < pos {
                } else if b == pos {
                } else if a < pos {
                    assert(old_out[b - 1].size_key() < kx || pos == old_out.len());
                } else if a == pos {
                    assert(old_out[pos as int].size_key() < kx);
                    assert(old_out[pos as int].size_key() >= old_out[b - 1].size_key());
                } else {
                    assert(old_out[a - 1].size_key() >= old_out[b - 1].size_key());
                }
            }
            let ip = inp.take(i + 1);
            assert forall|k: int| 0 <= k < p.len() implies 0 <= #[trigger] p[k] < ip.len() by {
                if k < pos {
                    assert(p[k] == old_p[k]);
                } else if k > pos {
                    assert(p[k] == old_p[k - 1]);
                }
            }
            assert forall|k: int| 0 <= k < p.len() implies out@[k] == ip[#[trigger] p[k]] by {
                if k < pos {
                    assert(p[k] == old_p[k]);
                    assert(out@[k] == old_out[k]);
                } else if k > pos {
                    assert(p[k] == old_p[k - 1]);
                    assert(out@[k] == old_out[k - 1]);
                }
            }
            assert forall|a: int, b: int| 0 <= a < b < p.len() implies #[trigger] p[a] != #[trigger] p[b] by {
                if a < pos && b < pos {
                    assert(p[a] == old_p[a] && p[b] == old_p[b]);
                } else if a < pos && b == pos {
                    assert(p[a] == old_p[a]);
                } else if a < pos && b > pos {
                    assert(p[a] == old_p[a] && p[b] == old_p[b - 1]);
                } else if a == pos {
                    assert(p[b] == old_p[b - 1]);
                } else {
                    assert(p[a] == old_p[a - 1] && p[b] == old_p[b - 1]);
                }
            }
            assert forall|j: int| 0 <= j < ip.len() implies #[trigger] index_used(p, j) by {
                if j == i {
                    assert(p[pos as int] == i);
                } else {
                    assert(index_used(old_p, j));
                    let k0 = choose|k: int| 0 <= k < old_p.len() && #[trigger] old_p[k] == j;
                    if k0 < pos {
                        assert(p[k0] == j);
                    } else {
                        assert(p[k0 + 1] == j);
                    }
                }
            }
            assert forall|a: int, b: int|
                0 <= a < b < p.len() && out@[a].size_key() == out@[b].size_key() implies #[trigger] p[a] < #[trigger] p[b] by {
                if a < pos && b < pos {
                    assert(p[a] == old_p[a] && p[b] == old_p[b]);
                } else if a < pos && b == pos {
                    assert(p[a] == old_p[a]);
                } else if a < pos && b > pos {
                    assert(p[a] == old_p[a] && p[b] == old_p[b - 1]);
                    assert(old_out[b - 1].size_key() < kx);
                } else if a == pos {
                    assert(old_out[b - 1].size_key() < kx);
                } else {
                    assert(p[a] == old_p[a - 1] && p[b] == old_p[b - 1]);
                }
            }
            i = i + 1;
        }
    }
    proof {
        assert(inp.take(i) =~= inp);
    }
    out
}

} // verus!
