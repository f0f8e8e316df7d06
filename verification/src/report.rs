//! Helpers of the visual report: path categories and their totals.

use vstd::prelude::*;
use crate::sort::{sort_by_size_desc, sorted_by_size_desc, stably_sorted_desc, SizeKeyed, sum_of, lemma_sum_take, lemma_sum_prefix, lemma_sum_nonneg};
use crate::text::{chars_of, push_char};
use vstd::string::StringSliceAdditionalSpecFns;
use vstd::utf8::{decode_utf8, encode_utf8, is_char_boundary};

verus! {

/// The text `str::to_lowercase` produces.
pub uninterp spec fn lowercase(s: Seq<char>) -> Seq<char>;

/// Lower-cases a string with the full Unicode mapping.
///
/// Trusted: the result is what `str::to_lowercase` returns for `s`, which
/// depends on `s` alone; the Unicode case tables are not stated here.
#[verifier::external_body]
fn to_lowercase(s: &str) -> (r: String)
    ensures
        r@ == lowercase(s@),
{
    s.to_lowercase()
}

/// `p` occurs in `s` as a contiguous run of characters.
pub open spec fn has_part(s: Seq<char>, p: Seq<char>) -> bool {
    exists|i: int| 0 <= i && i + p.len() <= s.len() && #[trigger] s.subrange(i, i + p.len()) == p
}

pub open spec fn starts_with_dot(s: Seq<char>) -> bool {
    s.len() > 0 && s[0] == '.'
}

/// The category of a lower-cased name, as an index into the category labels.
pub open spec fn category_index(l: Seq<char>) -> u8 {
    if has_part(l, "cache"@) {
        0
    } else if has_part(l, "library"@) {
        1
    } else if has_part(l, "node_modules"@) || has_part(l, ".npm"@) {
        2
    } else if has_part(l, "target"@) || has_part(l, ".cargo"@) || has_part(l, ".rustup"@) {
        3
    } else if has_part(l, "huggingface"@) || has_part(l, "model"@) || has_part(l, "mlx"@) {
        4
    } else if has_part(l, "tauri"@) {
        5
    } else if starts_with_dot(l) {
        6
    } else if has_part(l, "document"@) || has_part(l, "download"@) {
        7
    } else {
        8
    }
}

/// The label of category `i`.
pub open spec fn category_label(i: u8) -> Seq<char> {
    if i == 0 {
        "Cache"@
    } else if i == 1 {
        "System/Library"@
    } else if i == 2 {
        "Node.js/npm"@
    } else if i == 3 {
        "Rust/Cargo"@
    } else if i == 4 {
        "ML Models"@
    } else if i == 5 {
        "Tauri Apps"@
    } else if i == 6 {
        "Hidden/Config"@
    } else if i == 7 {
        "User Data"@
    } else {
        "Projects"@
    }
}

/// The category of a name: that of its lower-cased form.
pub open spec fn category_of_name(name: Seq<char>) -> u8 {
    category_index(lowercase(name))
}

fn contains_part(h: &Vec<char>, pat: &str) -> (r: bool)
    ensures
        r == has_part(h@, pat@),
{
    let p = chars_of(pat);
    let n = h.len();
    let m = p.len();
    if m > n {
        assert forall|i: int| 0 <= i && i + m <= n implies #[trigger] h@.subrange(i, i + m) != p@ by {}
        return false;
    }
    let mut i: usize = 0;
    while i <= n - m
        invariant
            m <= n == h@.len(),
            i <= n - m + 1,
            m == p@.len(),
            p@ == pat@,
            forall|j: int| 0 <= j < i ==> #[trigger] h@.subrange(j, j + m) != p@,
        decreases n - i,
    {
        let mut k: usize = 0;
        while k < m && h[i + k] == p[k]
            invariant
                k <= m,
                i + m <= n == h@.len(),
                m == p@.len(),
                forall|l: int| 0 <= l < k ==> h@[i + l] == p@[l],
            decreases m - k,
        {
            k = k + 1;
        }
        if k == m {
            assert(h@.subrange(i as int, i + m) =~= p@);
            return true;
        }
        assert(h@.subrange(i as int, i + m)[k as int] != p@[k as int]);
        i = i + 1;
    }
    assert forall|j: int| 0 <= j && j + m <= n implies #[trigger] h@.subrange(j, j + m) != p@ by {
        assert(j < i);
    }
    false
}

fn label_of(i: u8) -> (r: &'static str)
    ensures
        r@ == category_label(i),
{
    if i == 0 {
        "Cache"
    } else if i == 1 {
        "System/Library"
    } else if i == 2 {
        "Node.js/npm"
    } else if i == 3 {
        "Rust/Cargo"
    } else if i == 4 {
        "ML Models"
    } else if i == 5 {
        "Tauri Apps"
    } else if i == 6 {
        "Hidden/Config"
    } else if i == 7 {
        "User Data"
    } else {
        "Projects"
    }
}

/// The category index of an already lower-cased name.
pub fn category_index_of_lowercase(lower: &str) -> (r: u8)
    ensures
        r == category_index(lower@),
{
    let l = chars_of(lower);
    if contains_part(&l, "cache") {
        0
    } else if contains_part(&l, "library") {
        1
    } else if contains_part(&l, "node_modules") || contains_part(&l, ".npm") {
        2
    } else if contains_part(&l, "target") || contains_part(&l, ".cargo") || contains_part(
        &l,
        ".rustup",
    ) {
        3
    } else if contains_part(&l, "huggingface") || contains_part(&l, "model") || contains_part(
        &l,
        "mlx",
    ) {
        4
    } else if contains_part(&l, "tauri") {
        5
    } else if l.len() > 0 && l[0] == '.' {
        6
    } else if contains_part(&l, "document") || contains_part(&l, "download") {
        7
    } else {
        8
    }
}

/// The category of an already lower-cased name.
pub fn category_of_lowercase(lower: &str) -> (r: &'static str)
    ensures
        r@ == category_label(category_index(lower@)),
{
    label_of(category_index_of_lowercase(lower))
}

/// The category of a file or directory name, decided on its lower-cased form:
/// caches, system libraries, Node.js, Rust, ML models, Tauri apps, hidden
/// entries, user data, or projects.
pub fn categorize_path(name: &str) -> (r: &'static str)
    ensures
        r@ == category_label(category_of_name(name@)),
{
    let lower = to_lowercase(name);
    category_of_lowercase(lower.as_str())
}

impl SizeKeyed for (&'static str, u64) {
    open spec fn size_key(&self) -> u64 {
        self.1
    }

    fn key(&self) -> (k: u64) {
        self.1
    }
}

/// The size of a summary row.
pub open spec fn row_size_fn() -> spec_fn((String, u64, u64, u64, bool)) -> int {
    |row: (String, u64, u64, u64, bool)| row.1 as int
}

/// The size of a category total.
pub open spec fn total_size_fn() -> spec_fn((&'static str, u64)) -> int {
    |t: (&'static str, u64)| t.1 as int
}

/// The size of a group of rows by category index.
pub open spec fn group_size_fn() -> spec_fn((u8, u64)) -> int {
    |g: (u8, u64)| g.1 as int
}

proof fn lemma_sum_update<T>(s: Seq<T>, i: int, x: T, f: spec_fn(T) -> int)
    requires
        0 <= i < s.len(),
    ensures
        sum_of(s.update(i, x), f) == sum_of(s, f) - f(s[i]) + f(x),
{
    assert(s.update(i, x) =~= s.remove(i).insert(i, x));
    crate::sort::lemma_sum_insert(s.remove(i), i, x, f);
    crate::sort::lemma_sum_remove(s, i, f);
}

/// The size of a summary row if its name falls in category `c`, else zero.
pub open spec fn category_size_fn(c: u8) -> spec_fn((String, u64, u64, u64, bool)) -> int {
    |row: (String, u64, u64, u64, bool)|
        if category_of_name(row.0@) == c {
            row.1 as int
        } else {
            0
        }
}

/// The total size of the rows in category `c`.
pub open spec fn category_total(rows: Seq<(String, u64, u64, u64, bool)>, c: u8) -> int {
    sum_of(rows, category_size_fn(c))
}

/// Some row falls in category `c`.
pub open spec fn category_present(rows: Seq<(String, u64, u64, u64, bool)>, c: u8) -> bool {
    exists|i: int| 0 <= i < rows.len() && category_of_name(#[trigger] rows[i].0@) == c
}

/// `totals` lists, once each, the categories present in `rows` with their
/// total sizes, according to the category indices `idx`.
pub open spec fn lists_categories(
    rows: Seq<(String, u64, u64, u64, bool)>,
    totals: Seq<(&'static str, u64)>,
    idx: Seq<u8>,
) -> bool {
    &&& idx.len() == totals.len()
    &&& forall|k: int|
        0 <= k < totals.len() ==> {
            &&& (#[trigger] totals[k]).0@ == category_label(idx[k])
            &&& totals[k].1 == category_total(rows, idx[k])
            &&& category_present(rows, idx[k])
        }
    &&& forall|k: int, l: int| 0 <= k < l < idx.len() ==> #[trigger] idx[k] != #[trigger] idx[l]
    &&& forall|i: int|
        0 <= i < rows.len() ==> #[trigger] category_listed(idx, category_of_name(rows[i].0@))
}

pub open spec fn category_listed(idx: Seq<u8>, c: u8) -> bool {
    exists|k: int| 0 <= k < idx.len() && #[trigger] idx[k] == c
}

/// Some group is for category `c`.
pub open spec fn group_listed(groups: Seq<(u8, u64)>, c: u8) -> bool {
    exists|k: int| 0 <= k < groups.len() && (#[trigger] groups[k]).0 == c
}

/// The category index of a name.
fn category_index_of_name(name: &str) -> (r: u8)
    ensures
        r == category_of_name(name@),
{
    let lower = to_lowercase(name);
    category_index_of_lowercase(lower.as_str())
}

proof fn lemma_category_step(rows: Seq<(String, u64, u64, u64, bool)>, i: int, c: u8)
    requires
        0 <= i < rows.len(),
    ensures
        sum_of(rows.take(i + 1), category_size_fn(c)) == sum_of(rows.take(i), category_size_fn(c))
            + (if category_of_name(rows[i].0@) == c { rows[i].1 as int } else { 0 }),
{
    lemma_sum_take(rows, i, category_size_fn(c));
}

/// The total size of each category among the rows, largest first; every
/// category present appears once.
pub fn category_totals(rows: &Vec<(String, u64, u64, u64, bool)>) -> (totals: Vec<(&'static str, u64)>)
    requires
        forall|c: u8| category_total(rows@, c) <= u64::MAX,
    ensures
        sorted_by_size_desc(totals@),
        exists|idx: Seq<u8>| lists_categories(rows@, totals@, idx),
        sum_of(totals@, total_size_fn()) == sum_of(rows@, row_size_fn()),
{
    let ghost rs = rows@;
    let mut groups: Vec<(u8, u64)> = Vec::new();
    let mut i: usize = 0;
    while i < rows.len()
        invariant
            i <= rows.len(),
            rs == rows@,
            forall|c: u8| category_total(rs, c) <= u64::MAX,
            forall|k: int|
                0 <= k < groups@.len() ==> {
                    &&& (#[trigger] groups@[k]).1 == sum_of(rs.take(i as int), category_size_fn(groups@[k].0))
                    &&& category_present(rs.take(i as int), groups@[k].0)
                },
            forall|k: int, l: int| 0 <= k < l < groups@.len() ==> #[trigger] groups@[k].0 != #[trigger] groups@[l].0,
            forall|j: int|
                0 <= j < i ==> #[trigger] group_listed(groups@, category_of_name(rs[j].0@)),
            forall|c: u8|
                !group_listed(groups@, c) ==> sum_of(
                    rs.take(i as int),
                    #[trigger] category_size_fn(c),
                ) == 0,
            sum_of(groups@, group_size_fn()) == sum_of(rs.take(i as int), row_size_fn()),
        decreases rows.len() - i,
    {
        let c = category_index_of_name(rows[i].0.as_str());
        let size = rows[i].1;
        let ghost old_groups = groups@;
        proof {
            assert forall|d: u8| #![trigger category_size_fn(d)] true implies sum_of(rs.take(i + 1), category_size_fn(d))
                == sum_of(rs.take(i as int), category_size_fn(d)) + (if c == d { size as int } else { 0 }) by {
                lemma_category_step(rs, i as int, d);
            }
            assert(rs.take(i + 1).drop_last() =~= rs.take(i as int));
            lemma_sum_take(rs, i as int, row_size_fn());
        }
        let mut k: usize = 0;
        while k < groups.len() && groups[k].0 != c
            invariant
                k <= groups@.len(),
                forall|l: int| 0 <= l < k ==> groups@[l].0 != c,
            decreases groups@.len() - k,
        {
            k = k + 1;
        }
        proof {
            assert forall|d: u8| #![trigger category_size_fn(d)] true implies sum_of(rs.take(i + 1), category_size_fn(d))
                <= category_total(rs, d) by {
                assert forall|x: (String, u64, u64, u64, bool)| #[trigger] category_size_fn(d)(x) >= 0 by {}
                lemma_sum_prefix(rs, i + 1, category_size_fn(d));
            }
        }
        if k < groups.len() {
            let (gc, gs) = groups[k];
            proof {
                assert(sum_of(rs.take(i + 1), category_size_fn(gc)) == gs + size);
            }
            groups.set(k, (gc, gs + size));
            proof {
                lemma_sum_update(old_groups, k as int, (gc, (gs + size) as u64), group_size_fn());
            }
        } else {
            proof {
                assert(!group_listed(old_groups, c));
            }
            groups.push((c, size));
            proof {
                crate::sort::lemma_sum_push(old_groups, (c, size), group_size_fn());
            }
        }
        proof {
            assert(groups@.len() >= old_groups.len());
            assert(forall|m: int| 0 <= m < old_groups.len() ==> (#[trigger] groups@[m]).0 == old_groups[m].0);
            assert(group_listed(groups@, c)) by {
                if k < old_groups.len() {
                    assert(groups@[k as int].0 == c);
                } else {
                    assert(groups@[old_groups.len() as int].0 == c);
                }
            }
            assert forall|d: u8| group_listed(old_groups, d) implies #[trigger] group_listed(groups@, d) by {
                let m = choose|m: int| 0 <= m < old_groups.len() && (#[trigger] old_groups[m]).0 == d;
                assert(groups@[m].0 == d);
            }
            assert forall|j: int| 0 <= j < i + 1 implies #[trigger] group_listed(groups@, category_of_name(rs[j].0@)) by {
                if j < i {
                    assert(group_listed(old_groups, category_of_name(rs[j].0@)));
                }
            }
            assert forall|d: u8| !group_listed(groups@, d) implies sum_of(rs.take(i + 1), #[trigger] category_size_fn(d)) == 0 by {
                assert(!group_listed(old_groups, d));
                assert(d != c);
            }
        }
        i = i + 1;
    }
    assert(rs.take(i as int) =~= rs);
    let ghost gs = groups@;
    let mut labeled: Vec<(&'static str, u64)> = Vec::new();
    let mut k: usize = 0;
    while k < groups.len()
        invariant
            k <= groups@.len(),
            gs == groups@,
            labeled@.len() == k,
            forall|j: int| 0 <= j < k ==> (#[trigger] labeled@[j]).0@ == category_label(gs[j].0) && labeled@[j].1 == gs[j].1,
            sum_of(labeled@, total_size_fn()) == sum_of(gs.take(k as int), group_size_fn()),
        decreases groups@.len() - k,
    {
        let (gc, gsz) = groups[k];
        let ghost before = labeled@;
        labeled.push((label_of(gc), gsz));
        proof {
            crate::sort::lemma_sum_push(before, labeled@.last(), total_size_fn());
            lemma_sum_take(gs, k as int, group_size_fn());
        }
        k = k + 1;
    }
    assert(gs.take(k as int) =~= gs);
    let ghost lab = labeled@;
    let sorted = sort_by_size_desc(labeled);
    proof {
        let p = choose|p: Seq<int>| crate::sort::is_rearrangement(lab, sorted@, p) && crate::sort::keeps_ties_in_order(sorted@, p);
        let idx = Seq::new(p.len(), |m: int| gs[p[m]].0);
        let sv = sorted@;
        assert forall|m: int| 0 <= m < sv.len() implies {
            &&& (#[trigger] sv[m]).0@ == category_label(idx[m])
            &&& sv[m].1 == category_total(rs, idx[m])
            &&& category_present(rs, idx[m])
        } by {
            assert(0 <= p[m] < lab.len());
            assert(sv[m] == lab[p[m]]);
            assert(gs[p[m]].1 == sum_of(rs.take(i as int), category_size_fn(gs[p[m]].0)));
        }
        assert forall|a: int, b: int| 0 <= a < b < idx.len() implies #[trigger] idx[a] != #[trigger] idx[b] by {
            assert(p[a] != p[b]);
            if p[a] < p[b] {
                assert(gs[p[a]].0 != gs[p[b]].0);
            } else {
                assert(gs[p[b]].0 != gs[p[a]].0);
            }
        }
        assert forall|j: int| 0 <= j < rs.len() implies #[trigger] category_listed(idx, category_of_name(rs[j].0@)) by {
            let cj = category_of_name(rs[j].0@);
            assert(group_listed(gs, cj));
            let m0 = choose|m: int| 0 <= m < gs.len() && (#[trigger] gs[m]).0 == cj;
            assert(crate::sort::index_used(p, m0));
            let k0 = choose|k: int| 0 <= k < p.len() && #[trigger] p[k] == m0;
            assert(idx[k0] == cj);
        }
        assert(lists_categories(rs, sorted@, idx));
        crate::sort::lemma_sum_rearranged(lab, sorted@, p, total_size_fn());
    }
    sorted
}

/// The number of rows after the first `skip`, and their total size if it
/// fits in 64 bits.
pub fn tail_total(rows: &Vec<(String, u64, u64, u64, bool)>, skip: usize) -> (r: (usize, Option<u64>))
    ensures
        r.0 == (if skip <= rows@.len() { rows@.len() - skip } else { 0 }),
        r.1 is Some <==> sum_of(rows@.skip(skip as int), row_size_fn()) <= u64::MAX || skip >= rows@.len(),
        r.1 matches Some(t) ==> (skip >= rows@.len() && t == 0) || t == sum_of(rows@.skip(skip as int), row_size_fn()),
{
    if skip >= rows.len() {
        return (0, Some(0));
    }
    let ghost tail = rows@.skip(skip as int);
    let mut total: u64 = 0;
    let mut i: usize = skip;
    assert forall|x: (String, u64, u64, u64, bool)| #[trigger] row_size_fn()(x) >= 0 by {}
    while i < rows.len()
        invariant
            skip <= i <= rows@.len(),
            tail == rows@.skip(skip as int),
            forall|x: (String, u64, u64, u64, bool)| #[trigger] row_size_fn()(x) >= 0,
            total == sum_of(tail.take(i - skip), row_size_fn()),
        decreases rows.len() - i,
    {
        proof {
            lemma_sum_take(tail, i - skip, row_size_fn());
            lemma_sum_prefix(tail, i - skip + 1, row_size_fn());
        }
        match total.checked_add(rows[i].1) {
            Some(v) => {
                total = v;
            },
            None => {
                return (rows.len() - skip, None);
            },
        }
        i = i + 1;
    }
    assert(tail.take(i - skip) =~= tail);
    (rows.len() - skip, Some(total))
}

/// How a name is shown in the size distribution: a name of more than 20
/// bytes is cut to its first 19 bytes followed by an ellipsis; a shorter one
/// is padded with spaces to 20 characters.
pub open spec fn display_name_spec(name: Seq<char>) -> Seq<char> {
    let bytes = encode_utf8(name);
    if bytes.len() > 20 {
        decode_utf8(bytes.subrange(0, 19)) + seq!['…']
    } else if name.len() < 20 {
        name + Seq::new((20 - name.len()) as nat, |i: int| ' ')
    } else {
        name
    }
}

/// The name as the size distribution shows it. A name of more than 20 bytes
/// must have a character boundary at byte 19.
pub fn display_name(name: &str) -> (s: String)
    requires
        name.spec_bytes().len() <= usize::MAX,
        name.spec_bytes().len() > 20 ==> is_char_boundary(name.spec_bytes(), 19),
    ensures
        s@ == display_name_spec(name@),
{
    let len = name.len();
    if len > 20 {
        let (head, _tail) = name.split_at(19);
        let mut s = head.to_owned();
        push_char(&mut s, '…');
        proof {
            vstd::utf8::encode_utf8_decode_utf8(head@);
            assert(head@ == decode_utf8(encode_utf8(name@).subrange(0, 19)));
            assert(s@ =~= display_name_spec(name@));
        }
        s
    } else {
        let mut s = name.to_owned();
        let count = chars_of(name).len();
        let mut k: usize = count;
        while k < 20
            invariant
                count == name@.len(),
                count <= k <= 20 || (k == count && count >= 20),
                s@ == name@ + Seq::new((k - count) as nat, |i: int| ' '),
            decreases 20 - k,
        {
            push_char(&mut s, ' ');
            k = k + 1;
            assert(s@ =~= name@ + Seq::new((k - count) as nat, |i: int| ' '));
        }
        proof {
            assert(encode_utf8(name@).len() <= 20);
            if count >= 20 {
                assert(s@ =~= name@);
            }
            assert(s@ =~= display_name_spec(name@));
        }
        s
    }
}

/// How the path being scanned is shown in the progress line: a path of more
/// than 50 bytes is cut to `"..."` followed by its last 47 bytes.
pub open spec fn shortened_path_spec(path: Seq<char>) -> Seq<char> {
    let bytes = encode_utf8(path);
    if bytes.len() > 50 {
        "..."@ + decode_utf8(bytes.subrange(bytes.len() - 47, bytes.len() as int))
    } else {
        path
    }
}

/// The path as the progress line shows it. A path of more than 50 bytes
/// must have a character boundary 47 bytes before its end.
pub fn shortened_path(path: &str) -> (s: String)
    requires
        path.spec_bytes().len() <= usize::MAX,
        path.spec_bytes().len() > 50 ==> is_char_boundary(path.spec_bytes(), path.spec_bytes().len() - 47),
    ensures
        s@ == shortened_path_spec(path@),
{
    let len = path.len();
    if len > 50 {
        let (_head, tail) = path.split_at(len - 47);
        let mut s = String::from_str("...");
        s.append(tail);
        proof {
            reveal_strlit("...");
            vstd::utf8::encode_utf8_decode_utf8(tail@);
            assert(s@ =~= shortened_path_spec(path@));
        }
        s
    } else {
        path.to_owned()
    }
}

/// A lower-cased name that holds one of the parts of an earlier category.
pub open spec fn has_earlier_part(l: Seq<char>) -> bool {
    has_part(l, seq!['c', 'a', 'c', 'h', 'e']) || has_part(l, seq!['l', 'i', 'b', 'r', 'a', 'r', 'y']) || has_part(l, seq!['n', 'o', 'd', 'e', '_', 'm', 'o', 'd', 'u', 'l', 'e', 's']) || has_part(
        l,
        seq!['.', 'n', 'p', 'm'],
    ) || has_part(l, seq!['t', 'a', 'r', 'g', 'e', 't']) || has_part(l, seq!['.', 'c', 'a', 'r', 'g', 'o']) || has_part(l, seq!['.', 'r', 'u', 's', 't', 'u', 'p'])
}

/// The parts of a name are tested before its leading dot: a lower-cased name
/// holding "huggingface", "model" or "mlx" and no part of an earlier category
/// is in ML Models, and one holding "tauri" (and neither) in Tauri Apps,
/// whether or not it starts with a dot; a leading dot makes a name
/// Hidden/Config only when it holds none of these parts.
pub proof fn lemma_parts_before_dot(l: Seq<char>)
    ensures
        (has_part(l, seq!['h', 'u', 'g', 'g', 'i', 'n', 'g', 'f', 'a', 'c', 'e']) || has_part(l, seq!['m', 'o', 'd', 'e', 'l']) || has_part(l, seq!['m', 'l', 'x'])) && !has_earlier_part(l)
            ==> category_index(l) == 4 && category_label(category_index(l)) == seq!['M', 'L', ' ', 'M', 'o', 'd', 'e', 'l', 's'],
        has_part(l, seq!['t', 'a', 'u', 'r', 'i']) && !has_earlier_part(l) && !(has_part(l, seq!['h', 'u', 'g', 'g', 'i', 'n', 'g', 'f', 'a', 'c', 'e']) || has_part(
            l,
            seq!['m', 'o', 'd', 'e', 'l'],
        ) || has_part(l, seq!['m', 'l', 'x'])) ==> category_index(l) == 5 && category_label(category_index(l))
            == seq!['T', 'a', 'u', 'r', 'i', ' ', 'A', 'p', 'p', 's'],
        l.len() > 0 && l[0] == '.' && !has_earlier_part(l) && !(has_part(l, seq!['h', 'u', 'g', 'g', 'i', 'n', 'g', 'f', 'a', 'c', 'e']) || has_part(
            l,
            seq!['m', 'o', 'd', 'e', 'l'],
        ) || has_part(l, seq!['m', 'l', 'x']) || has_part(l, seq!['t', 'a', 'u', 'r', 'i'])) ==> category_index(l) == 6
            && category_label(category_index(l)) == seq!['H', 'i', 'd', 'd', 'e', 'n', '/', 'C', 'o', 'n', 'f', 'i', 'g'],
        has_part(l, seq!['c', 'a', 'c', 'h', 'e']) ==> category_label(category_index(l)) == seq!['C', 'a', 'c', 'h', 'e'],
{
    reveal_strlit("cache");
    assert("cache"@ =~= seq!['c', 'a', 'c', 'h', 'e']);
    reveal_strlit("library");
    assert("library"@ =~= seq!['l', 'i', 'b', 'r', 'a', 'r', 'y']);
    reveal_strlit("node_modules");
    assert("node_modules"@ =~= seq!['n', 'o', 'd', 'e', '_', 'm', 'o', 'd', 'u', 'l', 'e', 's']);
    reveal_strlit(".npm");
    assert(".npm"@ =~= seq!['.', 'n', 'p', 'm']);
    reveal_strlit("target");
    assert("target"@ =~= seq!['t', 'a', 'r', 'g', 'e', 't']);
    reveal_strlit(".cargo");
    assert(".cargo"@ =~= seq!['.', 'c', 'a', 'r', 'g', 'o']);
    reveal_strlit(".rustup");
    assert(".rustup"@ =~= seq!['.', 'r', 'u', 's', 't', 'u', 'p']);
    reveal_strlit("huggingface");
    assert("huggingface"@ =~= seq!['h', 'u', 'g', 'g', 'i', 'n', 'g', 'f', 'a', 'c', 'e']);
    reveal_strlit("model");
    assert("model"@ =~= seq!['m', 'o', 'd', 'e', 'l']);
    reveal_strlit("mlx");
    assert("mlx"@ =~= seq!['m', 'l', 'x']);
    reveal_strlit("tauri");
    assert("tauri"@ =~= seq!['t', 'a', 'u', 'r', 'i']);
    reveal_strlit("ML Models");
    assert("ML Models"@ =~= seq!['M', 'L', ' ', 'M', 'o', 'd', 'e', 'l', 's']);
    reveal_strlit("Tauri Apps");
    assert("Tauri Apps"@ =~= seq!['T', 'a', 'u', 'r', 'i', ' ', 'A', 'p', 'p', 's']);
    reveal_strlit("Hidden/Config");
    assert("Hidden/Config"@ =~= seq!['H', 'i', 'd', 'd', 'e', 'n', '/', 'C', 'o', 'n', 'f', 'i', 'g']);
    reveal_strlit("Cache");
    assert("Cache"@ =~= seq!['C', 'a', 'c', 'h', 'e']);
}

} // verus!
