//! Sequence-level facts about a forest laid out in document order: each
//! entry carries a depth, a subtree is the block of entries that follow its
//! root with a greater depth, and moving a subtree moves such a block.
use vstd::prelude::*;
use vstd::seq_lib::lemma_multiset_commutative;

verus! {

/// Entry `i` is at most one level below the entry before it.
pub open spec fn depth_step_ok(d: Seq<usize>, i: int) -> bool {
    d[i] <= d[i - 1] + 1
}

/// Depths that describe a forest in document order: the first entry is a
/// root, and each entry is at most one level below the entry before it.
pub open spec fn valid_depths(d: Seq<usize>) -> bool {
    &&& (d.len() > 0 ==> d[0] == 0)
    &&& forall|i: int| 0 < i < d.len() ==> #[trigger] depth_step_ok(d, i)
}

/// The first index at or after `j` whose depth is not below that of `i`.
pub open spec fn scan_end(d: Seq<usize>, i: int, j: int) -> int
    decreases d.len() - j,
{
    if j >= d.len() || d[j] <= d[i] {
        j
    } else {
        scan_end(d, i, j + 1)
    }
}

/// One past the last entry of the subtree rooted at index `i`.
pub open spec fn subtree_end(d: Seq<usize>, i: int) -> int {
    scan_end(d, i, i + 1)
}

/// The entries left when the block `[c, e)` is taken out.
pub open spec fn rest_of(s: Seq<usize>, c: int, e: int) -> Seq<usize> {
    s.subrange(0, c) + s.subrange(e, s.len() as int)
}

/// The block `[c, e)` taken out and put back at index `q` of what is left.
pub open spec fn moved(s: Seq<usize>, c: int, e: int, q: int) -> Seq<usize> {
    let r = rest_of(s, c, e);
    r.subrange(0, q) + s.subrange(c, e) + r.subrange(q, r.len() as int)
}

/// The depths of the block `[c, e)` shifted so that its first entry has
/// depth `base`.
pub open spec fn rebased(d: Seq<usize>, c: int, e: int, base: int) -> Seq<usize> {
    Seq::new((e - c) as nat, |k: int| (d[c + k] - d[c] + base) as usize)
}

/// The depths after moving the block `[c, e)` to index `q` of what is left,
/// its root now at depth `base`.
pub open spec fn moved_depths(d: Seq<usize>, c: int, e: int, q: int, base: int) -> Seq<usize> {
    let r = rest_of(d, c, e);
    r.subrange(0, q) + rebased(d, c, e, base) + r.subrange(q, r.len() as int)
}

proof fn lemma_scan_end(d: Seq<usize>, i: int, j: int)
    requires
        0 <= i < j <= d.len(),
        forall|k: int| i < k < j ==> d[k] > d[i],
    ensures
        j <= scan_end(d, i, j) <= d.len(),
        forall|k: int| i < k < scan_end(d, i, j) ==> d[k] > d[i],
        scan_end(d, i, j) < d.len() ==> d[scan_end(d, i, j)] <= d[i],
    decreases d.len() - j,
{
    if j < d.len() && d[j] > d[i] {
        lemma_scan_end(d, i, j + 1);
    }
}

/// The subtree of index `i` is the block after it whose depths are greater,
/// ended by the sequence's end or by an entry no deeper than `i`.
pub proof fn lemma_subtree_end(d: Seq<usize>, i: int)
    requires
        0 <= i < d.len(),
    ensures
        i < subtree_end(d, i) <= d.len(),
        forall|k: int| i < k < subtree_end(d, i) ==> d[k] > d[i],
        subtree_end(d, i) < d.len() ==> d[subtree_end(d, i)] <= d[i],
{
    lemma_scan_end(d, i, i + 1);
}

/// Depth grows by at most one per entry.
pub proof fn lemma_depth_growth(d: Seq<usize>, i: int, j: int)
    requires
        valid_depths(d),
        0 <= i <= j < d.len(),
    ensures
        d[j] <= d[i] + (j - i),
    decreases j - i,
{
    if j > i {
        lemma_depth_growth(d, i, j - 1);
        assert(depth_step_ok(d, j));
    }
}

/// Moving a block keeps every entry, each as often as before.
pub proof fn lemma_moved_multiset(s: Seq<usize>, c: int, e: int, q: int)
    requires
        0 <= c <= e <= s.len(),
        0 <= q <= s.len() - (e - c),
    ensures
        moved(s, c, e, q).to_multiset() == s.to_multiset(),
{
    broadcast use vstd::multiset::group_multiset_axioms;

    let a = s.subrange(0, c);
    let b = s.subrange(c, e);
    let z = s.subrange(e, s.len() as int);
    let r = rest_of(s, c, e);
    let r1 = r.subrange(0, q);
    let r2 = r.subrange(q, r.len() as int);
    assert(s =~= a + b + z);
    assert(r =~= r1 + r2);
    lemma_multiset_commutative(a + b, z);
    lemma_multiset_commutative(a, b);
    lemma_multiset_commutative(a, z);
    lemma_multiset_commutative(r1, r2);
    lemma_multiset_commutative(r1 + b, r2);
    lemma_multiset_commutative(r1, b);
    let (ma, mb, mz) = (a.to_multiset(), b.to_multiset(), z.to_multiset());
    assert(s.to_multiset() == ma.add(mb).add(mz));
    assert(r.to_multiset() == ma.add(mz));
    assert(r.to_multiset() == r1.to_multiset().add(r2.to_multiset()));
    assert(moved(s, c, e, q) =~= r1 + b + r2);
    assert(moved(s, c, e, q).to_multiset() == r1.to_multiset().add(mb).add(r2.to_multiset()));
    assert forall|x: usize| #[trigger] moved(s, c, e, q).to_multiset().count(x)
        == s.to_multiset().count(x) by {
        assert(ma.add(mb).add(mz).count(x) == ma.count(x) + mb.count(x) + mz.count(x));
        assert(r1.to_multiset().add(mb).add(r2.to_multiset()).count(x) == r1.to_multiset().count(x)
            + mb.count(x) + r2.to_multiset().count(x));
        assert(ma.add(mz).count(x) == ma.count(x) + mz.count(x));
    }
    assert(moved(s, c, e, q).to_multiset() =~= s.to_multiset());
}

/// Moving a block keeps a sequence free of duplicates, and keeps what it
/// contains.
pub proof fn lemma_moved_same_entries(s: Seq<usize>, c: int, e: int, q: int)
    requires
        0 <= c <= e <= s.len(),
        0 <= q <= s.len() - (e - c),
        s.no_duplicates(),
    ensures
        moved(s, c, e, q).no_duplicates(),
        forall|x: usize| moved(s, c, e, q).contains(x) <==> s.contains(x),
        moved(s, c, e, q).len() == s.len(),
{
    broadcast use vstd::seq_lib::group_to_multiset_ensures;

    let m = moved(s, c, e, q);
    lemma_moved_multiset(s, c, e, q);
    assert forall|x: usize| m.contains(x) <==> s.contains(x) by {
        assert(m.to_multiset().count(x) == s.to_multiset().count(x));
    }
    s.lemma_multiset_has_no_duplicates();
    m.lemma_multiset_has_no_duplicates_conv();
}

/// What is left after taking out a whole subtree still describes a forest.
proof fn lemma_rest_valid(d: Seq<usize>, c: int, e: int)
    requires
        valid_depths(d),
        0 <= c < e <= d.len(),
        forall|k: int| c < k < e ==> d[k] > d[c],
        e < d.len() ==> d[e] <= d[c],
    ensures
        valid_depths(rest_of(d, c, e)),
{
    let r = rest_of(d, c, e);
    let l = e - c;
    assert(r.len() == d.len() - l);
    assert forall|i: int| 0 < i < r.len() implies #[trigger] depth_step_ok(r, i) by {
        if i < c {
            assert(r[i] == d[i] && r[i - 1] == d[i - 1]);
            assert(depth_step_ok(d, i));
        } else if i == c {
            assert(r[i] == d[e] && r[i - 1] == d[c - 1]);
            assert(depth_step_ok(d, c));
        } else {
            assert(r[i] == d[i + l] && r[i - 1] == d[i - 1 + l]);
            assert(depth_step_ok(d, i + l));
        }
    }
    if r.len() > 0 {
        if c == 0 {
            assert(r[0] == d[e]);
        } else {
            assert(r[0] == d[0]);
        }
    }
}

/// Moving a whole subtree to a place where its root fits keeps a forest.
#[verifier::rlimit(40)]
pub proof fn lemma_moved_depths_valid(d: Seq<usize>, c: int, e: int, q: int, base: int)
    requires
        valid_depths(d),
        0 <= c < e <= d.len(),
        forall|k: int| c < k < e ==> d[k] > d[c],
        e < d.len() ==> d[e] <= d[c],
        0 <= q <= d.len() - (e - c),
        0 <= base <= q,
        d.len() <= usize::MAX,
        q == 0 ==> base == 0,
        q > 0 ==> base <= rest_of(d, c, e)[q - 1] + 1,
        q < d.len() - (e - c) ==> rest_of(d, c, e)[q] <= base + 1,
    ensures
        valid_depths(moved_depths(d, c, e, q, base)),
        moved_depths(d, c, e, q, base).len() == d.len(),
        moved_depths(d, c, e, q, base)[q] == base,
        forall|k: int| 0 <= k < e - c ==> #[trigger] moved_depths(d, c, e, q, base)[q + k] >= base,
        forall|k: int| 0 < k < e - c ==> #[trigger] moved_depths(d, c, e, q, base)[q + k] > base,
{
    let r = rest_of(d, c, e);
    let l = e - c;
    lemma_rest_valid(d, c, e);
    let b = rebased(d, c, e, base);
    let n = moved_depths(d, c, e, q, base);
    assert forall|k: int| 0 <= k < l implies b[k] == d[c + k] - d[c] + base && b[k] >= base by {
        lemma_depth_growth(d, c, c + k);
    }
    assert(n.len() == d.len());
    assert forall|i: int| 0 < i < n.len() implies #[trigger] depth_step_ok(n, i) by {
        if i < q {
            assert(n[i] == r[i] && n[i - 1] == r[i - 1]);
            assert(depth_step_ok(r, i));
        } else if i == q {
            assert(n[i] == base && n[i - 1] == r[q - 1]);
        } else if i < q + l {
            assert(n[i] == b[i - q] && n[i - 1] == b[i - q - 1]);
            assert(depth_step_ok(d, c + (i - q)));
        } else if i == q + l {
            assert(n[i] == r[q] && n[i - 1] == b[l - 1]);
        } else {
            assert(n[i] == r[i - l] && n[i - 1] == r[i - 1 - l]);
            assert(depth_step_ok(r, i - l));
        }
    }
    if n.len() > 0 {
        if q == 0 {
            assert(n[0] == b[0]);
        } else {
            assert(n[0] == r[0]);
        }
    }
    assert forall|k: int| 0 <= k < l implies #[trigger] n[q + k] >= base && (k > 0 ==> n[q + k]
        > base) by {
        assert(n[q + k] == b[k]);
    }
}

} // verus!
