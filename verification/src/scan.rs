//! The decisions of a scan: what a directory entry becomes, where the depth
//! limit stops the listing, and how a listed directory is put together (its
//! children ordered from the largest to the smallest, its size the sum of
//! theirs).  Reading the file system is left to the caller.
use vstd::prelude::*;
use vstd::multiset::*;
use crate::entry::{
    Entry, EntryKind, sizes_sum, sizes_consistent, all_consistent, lemma_all_consistent, sizes_exact,
    all_exact, lemma_all_exact, entry_totals, lemma_file_bytes_within_size, lemma_file_bytes_equal_size,
};

verus! {

broadcast use vstd::seq_lib::group_to_multiset_ensures;

/// `s` runs from the largest size to the smallest.
pub open spec fn sorted_by_size_desc(s: Seq<Entry>) -> bool {
    forall|i: int, j: int| 0 <= i <= j < s.len() ==> #[trigger] s[i].size >= #[trigger] s[j].size
}

/// `s` runs from the smallest size to the largest.
pub open spec fn sorted_by_size_asc(s: Seq<Entry>) -> bool {
    forall|i: int, j: int| 0 <= i <= j < s.len() ==> #[trigger] s[i].size <= #[trigger] s[j].size
}

/// The sum of `s`.
pub open spec fn seq_sum(s: Seq<u64>) -> nat
    decreases s.len(),
{
    if s.len() == 0 {
        0
    } else {
        seq_sum(s.drop_last()) + s.last() as nat
    }
}

/// `v` in reverse order.
fn reversed(v: Vec<Entry>) -> (r: Vec<Entry>)
    ensures
        r@ == v@.reverse(),
{
    let ghost orig = v@;
    let mut v = v;
    let mut r: Vec<Entry> = Vec::new();
    assert(orig.skip(orig.len() as int).reverse() =~= r@);
    while v.len() > 0
        invariant
            v.len() <= orig.len(),
            v@ == orig.take(v.len() as int),
            r@ == orig.skip(v.len() as int).reverse(),
        decreases v.len(),
    {
        let ghost n = v.len();
        let x = v.pop().unwrap();
        assert(x == orig[n - 1]);
        r.push(x);
        assert(v@ =~= orig.take(v.len() as int));
        assert(r@ =~= orig.skip(v.len() as int).reverse());
    }
    assert(orig.skip(0) =~= orig);
    r
}

/// Merges two lists sorted from the largest size to the smallest into one.
fn merge_desc(a: Vec<Entry>, b: Vec<Entry>) -> (r: Vec<Entry>)
    requires
        sorted_by_size_desc(a@),
        sorted_by_size_desc(b@),
    ensures
        sorted_by_size_desc(r@),
        r@.to_multiset() == a@.to_multiset().add(b@.to_multiset()),
{
    let ghost total = a@.to_multiset().add(b@.to_multiset());
    let mut a = a;
    let mut b = b;
    // Smallest first: the smaller of the two last elements goes next.
    let mut out: Vec<Entry> = Vec::new();
    while a.len() > 0 || b.len() > 0
        invariant
            sorted_by_size_desc(a@),
            sorted_by_size_desc(b@),
            sorted_by_size_asc(out@),
            out.len() > 0 ==> forall|i: int| 0 <= i < a.len() ==> out@.last().size <= #[trigger] a@[i].size,
            out.len() > 0 ==> forall|i: int| 0 <= i < b.len() ==> out@.last().size <= #[trigger] b@[i].size,
            out@.to_multiset().add(a@.to_multiset()).add(b@.to_multiset()) == total,
        decreases a.len() + b.len(),
    {
        let ghost (a0, b0, out0) = (a@, b@, out@);
        let take_a = if a.len() == 0 {
            false
        } else if b.len() == 0 {
            true
        } else {
            a[a.len() - 1].size <= b[b.len() - 1].size
        };
        if take_a {
            let x = a.pop().unwrap();
            assert(a0 =~= a@.push(x));
            proof {
                assert forall|i: int| 0 <= i < b.len() implies x.size <= #[trigger] b@[i].size by {
                    assert(b@[i].size >= b@[b.len() - 1].size);
                }
            }
            out.push(x);
        } else {
            let x = b.pop().unwrap();
            assert(b0 =~= b@.push(x));
            proof {
                assert forall|i: int| 0 <= i < a.len() implies x.size <= #[trigger] a@[i].size by {
                    assert(a@[i].size >= a@[a.len() - 1].size);
                }
            }
            out.push(x);
        }
        assert(out@ =~= out0.push(out@.last()));
        assert(forall|i: int| 0 <= i < out0.len() ==> out@[i] == out0[i]);
    }
    assert(a@.to_multiset() =~= Multiset::empty());
    assert(b@.to_multiset() =~= Multiset::empty());
    assert(out@.to_multiset().add(Multiset::empty()).add(Multiset::empty()) =~= out@.to_multiset());
    let r = reversed(out);
    proof {
        out@.lemma_reverse_to_multiset();
        assert forall|i: int, j: int| 0 <= i <= j < r@.len() implies #[trigger] r@[i].size >= #[trigger] r@[j].size by {
            let n = out@.len() as int;
            assert(r@[i] == out@[n - 1 - i]);
            assert(r@[j] == out@[n - 1 - j]);
        }
    }
    r
}

/// Orders entries from the largest size to the smallest (entries of equal
/// size in no particular order).
pub fn sort_by_size_desc(v: Vec<Entry>) -> (r: Vec<Entry>)
    ensures
        r@.to_multiset() == v@.to_multiset(),
        r@.len() == v@.len(),
        sorted_by_size_desc(r@),
    decreases v.len(),
{
    let n = v.len();
    if n <= 1 {
        return v;
    }
    let ghost orig = v@;
    let mid = n / 2;
    let mut left = v;
    let mut right: Vec<Entry> = Vec::new();
    assert(right@.to_multiset() =~= Multiset::empty());
    while left.len() > mid
        invariant
            mid <= left.len() <= n,
            right.len() == n - left.len(),
            left@.to_multiset().add(right@.to_multiset()) == orig.to_multiset(),
        decreases left.len(),
    {
        let ghost l0 = left@;
        let x = left.pop().unwrap();
        assert(l0 =~= left@.push(x));
        right.push(x);
    }
    let a = sort_by_size_desc(left);
    let b = sort_by_size_desc(right);
    let r = merge_desc(a, b);
    assert(r@.to_multiset().len() == orig.to_multiset().len());
    r
}


/// The sum of the sizes of `entries`, or `None` where it does not fit in a
/// `u64`.
pub fn total_size(entries: &Vec<Entry>) -> (total: Option<u64>)
    ensures
        total is Some <==> sizes_sum(entries@) <= u64::MAX,
        total matches Some(t) ==> t == sizes_sum(entries@),
{
    let mut sum: u64 = 0;
    let mut i: usize = 0;
    while i < entries.len()
        invariant
            i <= entries.len(),
            sum == sizes_sum(entries@.take(i as int)),
        decreases entries.len() - i,
    {
        proof {
            lemma_sizes_sum_prefix(entries@, i as int);
        }
        if sum > u64::MAX - entries[i].size {
            return None;
        }
        sum = sum + entries[i].size;
        i = i + 1;
    }
    assert(entries@.take(i as int) =~= entries@);
    Some(sum)
}

/// The sum of the first `i + 1` sizes adds the `i`-th to the sum of the first
/// `i`, and no prefix sums to more than the whole.
pub proof fn lemma_sizes_sum_prefix(s: Seq<Entry>, i: int)
    requires
        0 <= i < s.len(),
    ensures
        sizes_sum(s.take(i + 1)) == sizes_sum(s.take(i)) + s[i].size,
        sizes_sum(s.take(i + 1)) <= sizes_sum(s),
    decreases s.len() - i,
{
    assert(s.take(i + 1).drop_last() =~= s.take(i));
    if i + 1 < s.len() {
        lemma_sizes_sum_prefix(s, i + 1);
    } else {
        assert(s.take(i + 1) =~= s);
    }
}

/// The sum of the first `i + 1` numbers adds the `i`-th to the sum of the
/// first `i`, and no prefix sums to more than the whole.
pub proof fn lemma_seq_sum_prefix(s: Seq<u64>, i: int)
    requires
        0 <= i < s.len(),
    ensures
        seq_sum(s.take(i + 1)) == seq_sum(s.take(i)) + s[i],
        seq_sum(s.take(i + 1)) <= seq_sum(s),
    decreases s.len() - i,
{
    assert(s.take(i + 1).drop_last() =~= s.take(i));
    if i + 1 < s.len() {
        lemma_seq_sum_prefix(s, i + 1);
    } else {
        assert(s.take(i + 1) =~= s);
    }
}

/// The sum of `sizes`, or `None` where it does not fit in a `u64`.
pub fn sum_sizes(sizes: &Vec<u64>) -> (total: Option<u64>)
    ensures
        total is Some <==> seq_sum(sizes@) <= u64::MAX,
        total matches Some(t) ==> t == seq_sum(sizes@),
{
    let mut sum: u64 = 0;
    let mut i: usize = 0;
    while i < sizes.len()
        invariant
            i <= sizes.len(),
            sum == seq_sum(sizes@.take(i as int)),
        decreases sizes.len() - i,
    {
        proof {
            lemma_seq_sum_prefix(sizes@, i as int);
        }
        if sum > u64::MAX - sizes[i] {
            return None;
        }
        sum = sum + sizes[i];
        i = i + 1;
    }
    assert(sizes@.take(i as int) =~= sizes@);
    Some(sum)
}

/// Taking entry `j` out of `s` takes its size out of the sum.
pub proof fn lemma_sizes_sum_remove(s: Seq<Entry>, j: int)
    requires
        0 <= j < s.len(),
    ensures
        sizes_sum(s) == sizes_sum(s.remove(j)) + s[j].size,
    decreases s.len(),
{
    if j == s.len() - 1 {
        assert(s.remove(j) =~= s.drop_last());
    } else {
        let rest = s.drop_last();
        lemma_sizes_sum_remove(rest, j);
        assert(s.remove(j).drop_last() =~= rest.remove(j));
        assert(s.remove(j).last() == s.last());
    }
}

/// The sum of the sizes does not depend on the order of the entries.
pub proof fn lemma_sizes_sum_permutation(a: Seq<Entry>, b: Seq<Entry>)
    requires
        a.to_multiset() == b.to_multiset(),
    ensures
        sizes_sum(a) == sizes_sum(b),
    decreases a.len(),
{
    if a.len() == 0 {
        assert(b.to_multiset().len() == 0);
        assert(b.len() == 0);
    } else {
        let x = a.last();
        let rest = a.drop_last();
        assert(a =~= rest.push(x));
        assert(a.to_multiset().count(x) > 0);
        assert(b.contains(x));
        let j = choose|j: int| 0 <= j < b.len() && b[j] == x;
        assert(b.remove(j).to_multiset() == b.to_multiset().remove(x));
        assert(rest.to_multiset() =~= a.to_multiset().remove(x));
        lemma_sizes_sum_permutation(rest, b.remove(j));
        lemma_sizes_sum_remove(b, j);
    }
}

/// Reordering consistent trees keeps them consistent.
pub proof fn lemma_all_consistent_permutation(a: Seq<Entry>, b: Seq<Entry>)
    requires
        a.to_multiset() == b.to_multiset(),
        all_consistent(a),
    ensures
        all_consistent(b),
{
    lemma_all_consistent(a);
    lemma_all_consistent(b);
    assert forall|i: int| 0 <= i < b.len() implies #[trigger] sizes_consistent(b[i]) by {
        assert(b.to_multiset().count(b[i]) > 0);
        assert(a.contains(b[i]));
        let j = choose|j: int| 0 <= j < a.len() && a[j] == b[i];
        assert(sizes_consistent(a[j]));
    }
}

/// Every directory of the tree holds its children from the largest size to
/// the smallest, at every level.
pub open spec fn sorted_tree(e: Entry) -> bool
    decreases e,
{
    match e.kind {
        EntryKind::Dir { children } => sorted_by_size_desc(children@) && all_sorted(children@),
        _ => true,
    }
}

/// Every tree of `s` is sorted at every level.
pub open spec fn all_sorted(s: Seq<Entry>) -> bool
    decreases s,
{
    if s.len() == 0 {
        true
    } else {
        all_sorted(s.drop_last()) && sorted_tree(s.last())
    }
}

/// `all_sorted` holds of a sequence exactly when each of its trees is sorted
/// at every level.
pub proof fn lemma_all_sorted(s: Seq<Entry>)
    ensures
        all_sorted(s) <==> forall|i: int| 0 <= i < s.len() ==> #[trigger] sorted_tree(s[i]),
    decreases s.len(),
{
    if s.len() > 0 {
        let rest = s.drop_last();
        lemma_all_sorted(rest);
        assert(forall|i: int| 0 <= i < rest.len() ==> rest[i] == s[i]);
        if forall|i: int| 0 <= i < s.len() ==> #[trigger] sorted_tree(s[i]) {
            assert(sorted_tree(s[s.len() - 1]));
            assert forall|i: int| 0 <= i < rest.len() implies #[trigger] sorted_tree(rest[i]) by {
                assert(sorted_tree(s[i]));
            }
        }
    }
}

/// A directory at `depth` (the root at 0) lies at the limit `max_depth`.
pub open spec fn limit_reached(depth: nat, max_depth: Option<usize>) -> bool {
    max_depth matches Some(m) && depth >= m
}

/// The tree, with its root at `depth`, lists no children of a directory at
/// the depth limit, at every level.
pub open spec fn within_depth(e: Entry, depth: nat, max_depth: Option<usize>) -> bool
    decreases e,
{
    match e.kind {
        EntryKind::Dir { children } => if limit_reached(depth, max_depth) {
            children@.len() == 0
        } else {
            all_within(children@, depth + 1, max_depth)
        },
        _ => true,
    }
}

/// Every tree of `s`, each with its root at `depth`, keeps to the depth
/// limit.
pub open spec fn all_within(s: Seq<Entry>, depth: nat, max_depth: Option<usize>) -> bool
    decreases s,
{
    if s.len() == 0 {
        true
    } else {
        all_within(s.drop_last(), depth, max_depth) && within_depth(s.last(), depth, max_depth)
    }
}

/// `all_within` holds of a sequence exactly when each of its trees keeps to
/// the depth limit.
pub proof fn lemma_all_within(s: Seq<Entry>, depth: nat, max_depth: Option<usize>)
    ensures
        all_within(s, depth, max_depth) <==> forall|i: int|
            0 <= i < s.len() ==> #[trigger] within_depth(s[i], depth, max_depth),
    decreases s.len(),
{
    if s.len() > 0 {
        let rest = s.drop_last();
        lemma_all_within(rest, depth, max_depth);
        assert(forall|i: int| 0 <= i < rest.len() ==> rest[i] == s[i]);
        if forall|i: int| 0 <= i < s.len() ==> #[trigger] within_depth(s[i], depth, max_depth) {
            assert(within_depth(s[s.len() - 1], depth, max_depth));
            assert forall|i: int| 0 <= i < rest.len() implies #[trigger] within_depth(
                rest[i],
                depth,
                max_depth,
            ) by {
                assert(within_depth(s[i], depth, max_depth));
            }
        }
    }
}

/// How many levels of entries lie below the root of a tree.
pub open spec fn levels_below(e: Entry) -> nat
    decreases e,
{
    match e.kind {
        EntryKind::Dir { children } => if children@.len() == 0 {
            0
        } else {
            1 + max_levels(children@)
        },
        _ => 0,
    }
}

/// The most levels below any tree of `s`.
pub open spec fn max_levels(s: Seq<Entry>) -> nat
    decreases s,
{
    if s.len() == 0 {
        0
    } else {
        let rest = max_levels(s.drop_last());
        let l = levels_below(s.last());
        if rest >= l { rest } else { l }
    }
}

/// A tree that keeps to a depth limit `m`, with its root at depth `d`, has
/// no entry deeper than `m`.
pub proof fn lemma_depth_bound(e: Entry, d: nat, m: usize)
    requires
        within_depth(e, d, Some(m)),
        d <= m,
    ensures
        d + levels_below(e) <= m,
    decreases e,
{
    match e.kind {
        EntryKind::Dir { children } => {
            if children@.len() > 0 {
                assert(decreases_to!(e => e.kind));
                assert(decreases_to!(e.kind => e.kind->children));
                assert(decreases_to!(children => children@));
                lemma_forest_depth_bound(children@, d + 1, m);
            }
        },
        _ => {},
    }
}

/// Trees that keep to a depth limit `m`, with their roots at depth `d`, have
/// no entry deeper than `m`.
pub proof fn lemma_forest_depth_bound(s: Seq<Entry>, d: nat, m: usize)
    requires
        all_within(s, d, Some(m)),
        d <= m,
    ensures
        d + max_levels(s) <= m,
    decreases s,
{
    if s.len() > 0 {
        lemma_depth_bound(s.last(), d, m);
        lemma_forest_depth_bound(s.drop_last(), d, m);
    }
}

/// Reordering trees with exact sizes keeps their sizes exact.
pub proof fn lemma_all_exact_permutation(a: Seq<Entry>, b: Seq<Entry>)
    requires
        a.to_multiset() == b.to_multiset(),
        all_exact(a),
    ensures
        all_exact(b),
{
    lemma_all_exact(a);
    lemma_all_exact(b);
    assert forall|i: int| 0 <= i < b.len() implies #[trigger] sizes_exact(b[i]) by {
        assert(b.to_multiset().count(b[i]) > 0);
        assert(a.contains(b[i]));
        let j = choose|j: int| 0 <= j < a.len() && a[j] == b[i];
        assert(sizes_exact(a[j]));
    }
}

/// Reordering trees sorted at every level keeps each of them sorted.
pub proof fn lemma_all_sorted_permutation(a: Seq<Entry>, b: Seq<Entry>)
    requires
        a.to_multiset() == b.to_multiset(),
        all_sorted(a),
    ensures
        all_sorted(b),
{
    lemma_all_sorted(a);
    lemma_all_sorted(b);
    assert forall|i: int| 0 <= i < b.len() implies #[trigger] sorted_tree(b[i]) by {
        assert(b.to_multiset().count(b[i]) > 0);
        assert(a.contains(b[i]));
        let j = choose|j: int| 0 <= j < a.len() && a[j] == b[i];
        assert(sorted_tree(a[j]));
    }
}

/// Reordering trees that keep to a depth limit keeps them within it.
pub proof fn lemma_all_within_permutation(a: Seq<Entry>, b: Seq<Entry>, depth: nat, max_depth: Option<usize>)
    requires
        a.to_multiset() == b.to_multiset(),
        all_within(a, depth, max_depth),
    ensures
        all_within(b, depth, max_depth),
{
    lemma_all_within(a, depth, max_depth);
    lemma_all_within(b, depth, max_depth);
    assert forall|i: int| 0 <= i < b.len() implies #[trigger] within_depth(b[i], depth, max_depth) by {
        assert(b.to_multiset().count(b[i]) > 0);
        assert(a.contains(b[i]));
        let j = choose|j: int| 0 <= j < a.len() && a[j] == b[i];
        assert(within_depth(a[j], depth, max_depth));
    }
}

/// A tree as a scan builds it, with its root at `depth` under the limit
/// `max_depth`: sorted at every level, keeping to the depth limit, with
/// consistent sizes, and with exact sizes where there is no limit.
pub open spec fn scan_shaped(e: Entry, depth: nat, max_depth: Option<usize>) -> bool {
    &&& within_depth(e, depth, max_depth)
    &&& sorted_tree(e)
    &&& sizes_consistent(e)
    &&& max_depth is None ==> sizes_exact(e)
}

/// Trees as a scan builds them, each with its root at `depth`.
pub open spec fn all_shaped(s: Seq<Entry>, depth: nat, max_depth: Option<usize>) -> bool {
    &&& all_within(s, depth, max_depth)
    &&& all_sorted(s)
    &&& all_consistent(s)
    &&& max_depth is None ==> all_exact(s)
}

/// What a scanned tree, with its root at depth 0, promises: it is sorted at
/// every level; the bytes that the statistics count in files never exceed
/// the root's size, and equal it where there is no depth limit; and no entry
/// lies deeper than the limit.
pub proof fn lemma_scan_shaped_laws(root: Entry, max_depth: Option<usize>)
    requires
        scan_shaped(root, 0, max_depth),
    ensures
        sorted_tree(root),
        entry_totals(root).bytes <= root.size,
        max_depth is None ==> entry_totals(root).bytes == root.size,
        max_depth matches Some(m) ==> levels_below(root) <= m,
{
    lemma_file_bytes_within_size(root);
    if max_depth is None {
        lemma_file_bytes_equal_size(root);
    }
    if let Some(m) = max_depth {
        lemma_depth_bound(root, 0, m);
    }
}

/// The depth of the children of a directory at `depth`.
pub fn child_depth(depth: usize) -> (d: usize)
    requires
        depth < usize::MAX,
    ensures
        d == depth + 1,
{
    depth + 1
}

/// A directory whose children were listed: the children ordered from the
/// largest size to the smallest, the size of the directory the sum of theirs.
pub fn dir_entry(name: String, children: Vec<Entry>) -> (e: Entry)
    requires
        sizes_sum(children@) <= u64::MAX,
    ensures
        e.name == name,
        e.size == sizes_sum(children@),
        e.kind is Dir,
        e.kind->children@.to_multiset() == children@.to_multiset(),
        e.kind->children@.len() == children@.len(),
        sorted_by_size_desc(e.kind->children@),
        e.size == sizes_sum(e.kind->children@),
        all_consistent(children@) ==> sizes_consistent(e),
        all_exact(children@) ==> sizes_exact(e),
        all_sorted(children@) ==> sorted_tree(e),
        forall|depth: nat, max_depth: Option<usize>|
            !limit_reached(depth, max_depth) && all_within(children@, depth + 1, max_depth)
                ==> #[trigger] within_depth(e, depth, max_depth),
        forall|depth: nat, max_depth: Option<usize>|
            !limit_reached(depth, max_depth) && all_shaped(children@, depth + 1, max_depth)
                ==> #[trigger] scan_shaped(e, depth, max_depth),
{
    let ghost listed = children@;
    let children = sort_by_size_desc(children);
    proof {
        lemma_sizes_sum_permutation(listed, children@);
        if all_consistent(listed) {
            lemma_all_consistent_permutation(listed, children@);
        }
        if all_exact(listed) {
            lemma_all_exact_permutation(listed, children@);
        }
        if all_sorted(listed) {
            lemma_all_sorted_permutation(listed, children@);
        }
        assert forall|depth: nat, max_depth: Option<usize>|
            !limit_reached(depth, max_depth) && all_within(listed, depth + 1, max_depth) implies
            all_within(children@, depth + 1, max_depth) by {
            lemma_all_within_permutation(listed, children@, depth + 1, max_depth);
        }
    }
    let size = total_size(&children).unwrap();
    Entry { name, size, kind: EntryKind::Dir { children } }
}

/// A directory at the depth limit: no children are listed, and its size is
/// the total counted under it.
pub fn collapsed_dir(name: String, size: u64) -> (e: Entry)
    ensures
        e.name == name,
        e.size == size,
        e.kind is Dir,
        e.kind->children@.len() == 0,
        sizes_consistent(e),
        sorted_tree(e),
        forall|depth: nat, max_depth: Option<usize>| #[trigger] within_depth(e, depth, max_depth),
        forall|depth: nat, max_depth: Option<usize>|
            limit_reached(depth, max_depth) ==> #[trigger] scan_shaped(e, depth, max_depth),
{
    Entry { name, size, kind: EntryKind::Dir { children: Vec::new() } }
}

/// What one item listed under a directory at the depth limit adds to that
/// directory's total: a file its length, a directory the total under it, and
/// anything else (a symbolic link, a device, an item whose type could not be
/// read) nothing.
pub fn counted_size(is_file: bool, is_dir: bool, file_len: u64, below: u64) -> (n: u64)
    ensures
        n == if is_file {
            file_len
        } else if is_dir {
            below
        } else {
            0
        },
{
    if is_file {
        file_len
    } else if is_dir {
        below
    } else {
        0
    }
}

/// The name an entry is shown under: the last component of its path, or the
/// whole path where it has none (as for `/` or `..`).
pub fn entry_name(file_name: Option<String>, whole_path: String) -> (name: String)
    ensures
        name == match file_name {
            Some(n) => n,
            None => whole_path,
        },
{
    match file_name {
        Some(n) => n,
        None => whole_path,
    }
}

/// Whether a directory at `depth` (the scanned root at depth 0) lies at the
/// depth limit, so that its children are not listed.  Without a limit no
/// directory does.
pub fn at_depth_limit(depth: usize, max_depth: Option<usize>) -> (at_limit: bool)
    ensures
        at_limit == (max_depth matches Some(m) && depth >= m),
{
    match max_depth {
        Some(m) => depth >= m,
        None => false,
    }
}

/// What a directory entry of the given type becomes without further
/// listing: a symbolic link is never followed and counts zero bytes, a file
/// counts its length.  `None` for a directory, which is to be scanned.
pub fn leaf_entry(name: String, is_symlink: bool, is_file: bool, len: u64) -> (e: Option<Entry>)
    ensures
        is_symlink ==> e == Some(Entry { name, size: 0, kind: EntryKind::Symlink }),
        !is_symlink && is_file ==> e == Some(Entry { name, size: len, kind: EntryKind::File }),
        !is_symlink && !is_file ==> e is None,
        e matches Some(x) ==> sizes_consistent(x) && sizes_exact(x) && sorted_tree(x),
        e matches Some(x) ==> forall|depth: nat, max_depth: Option<usize>|
            #[trigger] within_depth(x, depth, max_depth),
        e matches Some(x) ==> forall|depth: nat, max_depth: Option<usize>|
            #[trigger] scan_shaped(x, depth, max_depth),
{
    if is_symlink {
        Some(Entry { name, size: 0, kind: EntryKind::Symlink })
    } else if is_file {
        Some(Entry { name, size: len, kind: EntryKind::File })
    } else {
        None
    }
}

} // verus!
