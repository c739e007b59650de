//! Sorting for the index builders: a merge sort over `(u64, u64)` pairs in
//! lexicographic order, and deduplication of the sorted result.
//!
//! The sorter is the pluggable heart of the object-index pipeline: it takes
//! unsorted pairs and hands back the same multiset in order.

use vstd::prelude::*;

verus! {

/// Lexicographic order on pairs.
pub open spec fn pair_leq(a: (u64, u64), b: (u64, u64)) -> bool {
    a.0 < b.0 || (a.0 == b.0 && a.1 <= b.1)
}

/// Strict lexicographic order on pairs.
pub open spec fn pair_lt(a: (u64, u64), b: (u64, u64)) -> bool {
    a.0 < b.0 || (a.0 == b.0 && a.1 < b.1)
}

/// Non-decreasing in lexicographic order.
pub open spec fn sorted_pairs(s: Seq<(u64, u64)>) -> bool {
    forall|i: int, j: int| 0 <= i < j < s.len() ==> pair_leq(#[trigger] s[i], #[trigger] s[j])
}

/// Strictly increasing in lexicographic order.
pub open spec fn strictly_sorted_pairs(s: Seq<(u64, u64)>) -> bool {
    forall|i: int, j: int| 0 <= i < j < s.len() ==> pair_lt(#[trigger] s[i], #[trigger] s[j])
}

/// Merge two sorted vectors into one sorted vector with the combined
/// contents.
fn merge_pairs(a: Vec<(u64, u64)>, b: Vec<(u64, u64)>) -> (r: Vec<(u64, u64)>)
    requires
        sorted_pairs(a@),
        sorted_pairs(b@),
        a@.len() + b@.len() <= usize::MAX,
    ensures
        sorted_pairs(r@),
        r@.to_multiset() == a@.to_multiset().add(b@.to_multiset()),
        r@.len() == a@.len() + b@.len(),
{
    broadcast use vstd::seq_lib::group_to_multiset_ensures;
    broadcast use vstd::multiset::group_multiset_axioms;

    let mut r: Vec<(u64, u64)> = Vec::new();
    let mut i: usize = 0;
    let mut j: usize = 0;
    while i < a.len() || j < b.len()
        invariant
            sorted_pairs(a@),
            sorted_pairs(b@),
            i <= a@.len(),
            j <= b@.len(),
            r@.len() == i + j,
            sorted_pairs(r@),
            r@.to_multiset() == a@.take(i as int).to_multiset().add(
                b@.take(j as int).to_multiset(),
            ),
            forall|q: int| i <= q < a@.len() && r@.len() > 0 ==> pair_leq(r@.last(), #[trigger] a@[q]),
            forall|q: int| j <= q < b@.len() && r@.len() > 0 ==> pair_leq(r@.last(), #[trigger] b@[q]),
        decreases a@.len() - i + b@.len() - j,
    {
        let take_a = if i < a.len() {
            if j < b.len() {
                let x = a[i];
                let y = b[j];
                x.0 < y.0 || (x.0 == y.0 && x.1 <= y.1)
            } else {
                true
            }
        } else {
            false
        };
        if take_a {
            let x = a[i];
            let ghost pre = r@;
            r.push(x);
            proof {
                pre.to_multiset_ensures();
                a@.take(i as int).to_multiset_ensures();
                assert(r@ == pre.push(x));
                assert(a@.take(i + 1) =~= a@.take(i as int).push(x));
                assert(r@.to_multiset() =~= a@.take(i + 1).to_multiset().add(
                    b@.take(j as int).to_multiset(),
                ));
            }
            i = i + 1;
        } else {
            let y = b[j];
            let ghost pre = r@;
            r.push(y);
            proof {
                pre.to_multiset_ensures();
                b@.take(j as int).to_multiset_ensures();
                assert(r@ == pre.push(y));
                assert(b@.take(j + 1) =~= b@.take(j as int).push(y));
                assert(r@.to_multiset() =~= a@.take(i as int).to_multiset().add(
                    b@.take(j + 1).to_multiset(),
                ));
            }
            j = j + 1;
        }
    }
    proof {
        assert(a@.take(a@.len() as int) =~= a@);
        assert(b@.take(b@.len() as int) =~= b@);
    }
    r
}

/// Sort pairs lexicographically. The result holds exactly the input's
/// contents, as a multiset.
pub fn sort_pairs(v: Vec<(u64, u64)>) -> (r: Vec<(u64, u64)>)
    ensures
        sorted_pairs(r@),
        r@.to_multiset() == v@.to_multiset(),
        r@.len() == v@.len(),
    decreases v@.len(),
{
    broadcast use vstd::seq_lib::group_to_multiset_ensures;
    broadcast use vstd::multiset::group_multiset_axioms;

    if v.len() <= 1 {
        return v;
    }
    let mid = v.len() / 2;
    let mut left: Vec<(u64, u64)> = Vec::new();
    let mut right: Vec<(u64, u64)> = Vec::new();
    let mut ix: usize = 0;
    while ix < v.len()
        invariant
            ix <= v@.len(),
            mid < v@.len(),
            left@ == v@.take(if ix < mid {
                ix as int
            } else {
                mid as int
            }),
            right@ == if ix <= mid {
                Seq::<(u64, u64)>::empty()
            } else {
                v@.subrange(mid as int, ix as int)
            },
        decreases v@.len() - ix,
    {
        if ix < mid {
            left.push(v[ix]);
            proof {
                assert(left@ =~= v@.take(if ix + 1 < mid {
                    ix + 1
                } else {
                    mid as int
                }));
            }
        } else {
            right.push(v[ix]);
            proof {
                assert(right@ =~= v@.subrange(mid as int, ix + 1));
            }
        }
        ix = ix + 1;
    }
    proof {
        assert(left@ =~= v@.take(mid as int));
        assert(right@ =~= v@.skip(mid as int));
        assert(v@.take(mid as int) + v@.skip(mid as int) =~= v@);
        vstd::seq_lib::lemma_multiset_commutative(v@.take(mid as int), v@.skip(mid as int));
    }
    let ls = sort_pairs(left);
    let rs = sort_pairs(right);
    merge_pairs(ls, rs)
}

/// What deduplication leaves of a sorted sequence: each element once, in
/// order.
pub open spec fn dedup_sorted(s: Seq<(u64, u64)>) -> Seq<(u64, u64)>
    decreases s.len(),
{
    if s.len() == 0 {
        Seq::empty()
    } else {
        let rest = dedup_sorted(s.drop_last());
        if s.len() >= 2 && s.last() == s[s.len() - 2] {
            rest
        } else {
            rest.push(s.last())
        }
    }
}

/// Deduplication keeps exactly the elements of its input.
pub proof fn lemma_dedup_sorted_contains(s: Seq<(u64, u64)>)
    ensures
        forall|x: (u64, u64)| dedup_sorted(s).contains(x) <==> s.contains(x),
    decreases s.len(),
{
    if s.len() > 0 {
        lemma_dedup_sorted_contains(s.drop_last());
        let d = dedup_sorted(s);
        let rest = dedup_sorted(s.drop_last());
        assert forall|x: (u64, u64)| s.contains(x) implies d.contains(x) by {
            let i = choose|i: int| 0 <= i < s.len() && #[trigger] s[i] == x;
            if i < s.len() - 1 {
                assert(s.drop_last()[i] == x);
                assert(s.drop_last().contains(x));
                assert(rest.contains(x));
                let q = choose|q: int| 0 <= q < rest.len() && #[trigger] rest[q] == x;
                if s.len() >= 2 && s.last() == s[s.len() - 2] {
                    assert(d[q] == x);
                } else {
                    assert(d[q] == x);
                }
            } else {
                if s.len() >= 2 && s.last() == s[s.len() - 2] {
                    assert(s.drop_last()[s.len() - 2] == x);
                    assert(s.drop_last().contains(x));
                    assert(rest.contains(x));
                    let q = choose|q: int| 0 <= q < rest.len() && #[trigger] rest[q] == x;
                    assert(d[q] == x);
                } else {
                    assert(d[d.len() - 1] == x);
                }
            }
        }
        assert forall|x: (u64, u64)| d.contains(x) implies s.contains(x) by {
            let q = choose|q: int| 0 <= q < d.len() && #[trigger] d[q] == x;
            if s.len() >= 2 && s.last() == s[s.len() - 2] {
                assert(rest.contains(x));
                let i = choose|i: int| 0 <= i < rest.len() && #[trigger] rest[i] == x;
                assert(s.drop_last().contains(x));
                let j = choose|j: int| 0 <= j < s.drop_last().len() && #[trigger] s.drop_last()[j]
                    == x;
                assert(s[j] == x);
            } else {
                if q < rest.len() {
                    assert(rest[q] == x);
                    assert(rest.contains(x));
                    assert(s.drop_last().contains(x));
                    let j = choose|j: int|
                        0 <= j < s.drop_last().len() && #[trigger] s.drop_last()[j] == x;
                    assert(s[j] == x);
                } else {
                    assert(x == s.last());
                    assert(s[s.len() - 1] == x);
                }
            }
        }
    }
}

/// Drop repeated pairs from a sorted vector. The result is strictly sorted
/// and holds an element exactly when the input does: identical pairs
/// collapse to one, the documented policy of the object index.
pub fn dedup_pairs(v: Vec<(u64, u64)>) -> (r: Vec<(u64, u64)>)
    requires
        sorted_pairs(v@),
    ensures
        r@ == dedup_sorted(v@),
        strictly_sorted_pairs(r@),
        forall|x: (u64, u64)| r@.contains(x) <==> v@.contains(x),
        r@.len() <= v@.len(),
{
    let mut r: Vec<(u64, u64)> = Vec::new();
    let mut i: usize = 0;
    while i < v.len()
        invariant
            sorted_pairs(v@),
            i <= v@.len(),
            r@.len() <= i,
            r@ == dedup_sorted(v@.take(i as int)),
            strictly_sorted_pairs(r@),
            forall|x: (u64, u64)| r@.contains(x) <==> v@.take(i as int).contains(x),
            i > 0 ==> r@.len() > 0 && r@.last() == v@[i - 1],
        decreases v@.len() - i,
    {
        let x = v[i];
        let is_dup = if i > 0 {
            let last = r[r.len() - 1];
            last.0 == x.0 && last.1 == x.1
        } else {
            false
        };
        let ghost pre = r@;
        if !is_dup {
            r.push(x);
        }
        proof {
            assert(v@.take(i + 1) =~= v@.take(i as int).push(x));
            assert(v@.take(i + 1).drop_last() =~= v@.take(i as int));
            assert(v@.take(i + 1).last() == x);
            if i > 0 {
                assert(v@.take(i + 1)[i - 1] == v@[i - 1]);
            }
            if !is_dup {
                assert forall|y: (u64, u64)| r@.contains(y) implies v@.take(i + 1).contains(y) by {
                    let q = choose|q: int| 0 <= q < r@.len() && #[trigger] r@[q] == y;
                    if q < pre.len() {
                        assert(pre.contains(y));
                    } else {
                        assert(v@.take(i + 1)[i as int] == y);
                    }
                }
                assert forall|y: (u64, u64)| v@.take(i + 1).contains(y) implies r@.contains(y) by {
                    let q = choose|q: int| 0 <= q < i + 1 && #[trigger] v@.take(i + 1)[q] == y;
                    if q < i {
                        assert(v@.take(i as int).contains(y));
                        assert(pre.contains(y));
                        let p = choose|p: int| 0 <= p < pre.len() && #[trigger] pre[p] == y;
                        assert(r@[p] == y);
                    } else {
                        assert(r@.last() == y);
                    }
                }
                assert forall|p: int, q: int|
                    0 <= p < q < r@.len() implies pair_lt(#[trigger] r@[p], #[trigger] r@[q]) by {
                    if q < pre.len() {
                        assert(pair_lt(pre[p], pre[q]));
                    } else {
                        if i > 0 {
                            if p == pre.len() - 1 {
                                assert(r@[p] == v@[i - 1]);
                                assert(pair_leq(v@[i - 1], v@[i as int]));
                            } else {
                                assert(pair_lt(pre[p], pre[pre.len() - 1]));
                                assert(pre[pre.len() - 1] == v@[i - 1]);
                                assert(pair_leq(v@[i - 1], v@[i as int]));
                            }
                        }
                    }
                }
            } else {
                assert(r@.last() == v@[i - 1]);
                assert(r@.last() == x);
                assert forall|y: (u64, u64)| v@.take(i + 1).contains(y) implies r@.contains(y) by {
                    let q = choose|q: int| 0 <= q < i + 1 && #[trigger] v@.take(i + 1)[q] == y;
                    if q < i {
                        assert(v@.take(i as int).contains(y));
                    } else {
                        assert(y == x);
                        assert(r@.contains(x));
                    }
                }
            }
        }
        i = i + 1;
    }
    proof {
        assert(v@.take(v@.len() as int) =~= v@);
    }
    r
}

} // verus!
