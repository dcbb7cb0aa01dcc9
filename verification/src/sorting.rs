//! A stable insertion sort over key-tagged items, and vector reversal. The
//! policies tag each group with an integer key, sort ascending, and reverse
//! where the largest should come first.

use vstd::prelude::*;

use vstd::seq_lib::to_multiset_insert;
use vstd::seq_lib::to_multiset_remove;

verus! {

/// The keys appear in ascending order.
pub open spec fn sorted_asc<T>(s: Seq<(u128, T)>) -> bool {
    forall|a: int, b: int| 0 <= a < b < s.len() ==> #[trigger] s[a].0 <= #[trigger] s[b].0
}

/// `x` placed behind every item whose key does not exceed its own.
pub open spec fn spec_insert_sorted<T>(s: Seq<(u128, T)>, x: (u128, T)) -> Seq<(u128, T)>
    decreases s.len(),
{
    if s.len() == 0 {
        seq![x]
    } else if s.last().0 <= x.0 {
        s.push(x)
    } else {
        spec_insert_sorted(s.drop_last(), x).push(s.last())
    }
}

/// The stable ascending sort: each item in turn goes behind its equals, so
/// items with equal keys keep their input order.
pub open spec fn spec_stable_sort<T>(s: Seq<(u128, T)>) -> Seq<(u128, T)>
    decreases s.len(),
{
    if s.len() == 0 {
        Seq::empty()
    } else {
        spec_insert_sorted(spec_stable_sort(s.drop_last()), s.last())
    }
}

proof fn lemma_insert_sorted_len<T>(s: Seq<(u128, T)>, x: (u128, T))
    ensures
        spec_insert_sorted(s, x).len() == s.len() + 1,
    decreases s.len(),
{
    if s.len() > 0 && !(s.last().0 <= x.0) {
        lemma_insert_sorted_len(s.drop_last(), x);
    }
}

proof fn lemma_stable_sort_len<T>(s: Seq<(u128, T)>)
    ensures
        spec_stable_sort(s).len() == s.len(),
    decreases s.len(),
{
    if s.len() > 0 {
        lemma_stable_sort_len(s.drop_last());
        lemma_insert_sorted_len(spec_stable_sort(s.drop_last()), s.last());
    }
}

/// Where the scan of the exec sort stops is where the spec inserts.
proof fn lemma_insert_sorted_at<T>(s: Seq<(u128, T)>, x: (u128, T), j: int)
    requires
        0 <= j <= s.len(),
        forall|m: int| j <= m < s.len() ==> (#[trigger] s[m]).0 > x.0,
        j > 0 ==> s[j - 1].0 <= x.0,
    ensures
        spec_insert_sorted(s, x) == s.insert(j, x),
    decreases s.len(),
{
    if j == s.len() {
        if s.len() == 0 {
            assert(spec_insert_sorted(s, x) =~= s.insert(j, x));
        } else {
            assert(s.last().0 <= x.0);
            assert(s.push(x) =~= s.insert(j, x));
        }
    } else {
        assert(s[s.len() - 1].0 > x.0);
        assert forall|m: int| j <= m < s.drop_last().len() implies (#[trigger] s.drop_last()[
        m]).0 > x.0 by {
            assert(s.drop_last()[m] == s[m]);
        }
        if j > 0 {
            assert(s.drop_last()[j - 1] == s[j - 1]);
        }
        lemma_insert_sorted_at(s.drop_last(), x, j);
        assert(s.drop_last().insert(j, x).push(s.last()) =~= s.insert(j, x));
    }
}

/// Sort the items ascending by key. Items with equal keys keep their
/// relative order.
pub fn sort_by_key_asc<T>(items: Vec<(u128, T)>) -> (r: Vec<(u128, T)>)
    ensures
        r@.to_multiset() == items@.to_multiset(),
        sorted_asc(r@),
        r@.len() == items@.len(),
        r@ == spec_stable_sort(items@),
{
    let ghost orig = items@;
    let mut v = items;
    if v.len() <= 1 {
        proof {
            assert(sorted_asc(v@));
            if v@.len() == 0 {
                assert(v@ =~= spec_stable_sort(orig));
            } else {
                assert(orig.drop_last() =~= Seq::<(u128, T)>::empty());
                assert(spec_stable_sort(Seq::<(u128, T)>::empty()) =~= Seq::<(u128, T)>::empty());
                assert(spec_insert_sorted(Seq::<(u128, T)>::empty(), orig.last()) =~= seq![
                    orig.last(),
                ]);
                assert(v@ =~= spec_stable_sort(orig));
            }
        }
        return v;
    }
    let mut i: usize = 1;
    proof {
        assert(orig.take(1).drop_last() =~= Seq::<(u128, T)>::empty());
        assert(spec_stable_sort(Seq::<(u128, T)>::empty()) =~= Seq::<(u128, T)>::empty());
        assert(spec_insert_sorted(Seq::<(u128, T)>::empty(), orig.take(1).last()) =~= seq![
            orig[0],
        ]);
        assert(spec_stable_sort(orig.take(1)) =~= seq![orig[0]]);
        assert(v@ =~= spec_stable_sort(orig.take(1)) + orig.skip(1));
    }
    while i < v.len()
        invariant
            1 <= i <= v.len(),
            v@.to_multiset() == orig.to_multiset(),
            v@.len() == orig.len(),
            sorted_asc(v@.take(i as int)),
            v@ == spec_stable_sort(orig.take(i as int)) + orig.skip(i as int),
        decreases v.len() - i,
    {
        proof {
            lemma_stable_sort_len(orig.take(i as int));
            assert(orig.take(i + 1).drop_last() =~= orig.take(i as int));
            assert(orig.take(i + 1).last() == orig[i as int]);
            assert(v@[i as int] == orig.skip(i as int)[0]);
            assert(v@[i as int] == orig[i as int]);
            assert(v@.take(i as int) =~= spec_stable_sort(orig.take(i as int)));
        }
        if v[i - 1].0 <= v[i].0 {
            // already in place behind the sorted prefix
            proof {
                let prefix = spec_stable_sort(orig.take(i as int));
                lemma_insert_sorted_at(prefix, orig[i as int], i as int);
                assert(prefix.insert(i as int, orig[i as int]) =~= prefix.push(
                    orig[i as int],
                ));
                assert(v@ =~= spec_stable_sort(orig.take(i + 1)) + orig.skip(i + 1));
                assert forall|a: int, b: int| 0 <= a < b < i + 1 implies #[trigger] v@[a].0
                    <= #[trigger] v@[b].0 by {
                    if b < i {
                        assert(v@.take(i as int)[a].0 <= v@.take(i as int)[b].0);
                        assert(v@.take(i as int)[a] == v@[a]);
                        assert(v@.take(i as int)[b] == v@[b]);
                    } else if a < i - 1 {
                        assert(v@.take(i as int)[a].0 <= v@.take(i as int)[i - 1].0);
                        assert(v@.take(i as int)[a] == v@[a]);
                        assert(v@.take(i as int)[i - 1] == v@[i - 1]);
                    }
                }
            }
            i = i + 1;
            continue;
        }
        let ghost before_remove = v@;
        let x = v.remove(i);
        proof {
            to_multiset_remove(before_remove, i as int);
        }
        let ghost after_remove = v@;
        let mut j: usize = i;
        while j > 0 && v[j - 1].0 > x.0
            invariant
                0 <= j <= i,
                i < after_remove.len() + 1,
                v@ == after_remove,
                forall|m: int| j <= m < i ==> #[trigger] v@[m].0 > x.0,
            decreases j,
        {
            j = j - 1;
        }
        let ghost before_insert = v@;
        v.insert(j, x);
        proof {
            // the scan position is exactly where the stable sort inserts
            let prefix = spec_stable_sort(orig.take(i as int));
            assert(x == orig[i as int]);
            assert(before_remove.take(i as int) =~= prefix);
            assert(after_remove =~= prefix + orig.skip(i + 1));
            assert forall|m: int| j as int <= m < prefix.len() implies (#[trigger] prefix[
            m]).0 > x.0 by {
                assert(prefix[m] == after_remove[m]);
            }
            if j > 0 {
                assert(prefix[j - 1] == after_remove[j - 1]);
            }
            lemma_insert_sorted_at(prefix, x, j as int);
            assert(v@ =~= prefix.insert(j as int, x) + orig.skip(i + 1));
            assert(v@ =~= spec_stable_sort(orig.take(i + 1)) + orig.skip(i + 1));
            to_multiset_insert(before_insert, j as int, x);
            // the multiset is as before the removal
            assert(v@.to_multiset() =~= orig.to_multiset()) by {
                broadcast use vstd::multiset::group_multiset_axioms;

                assert(x == before_remove[i as int]);
                vstd::seq_lib::to_multiset_contains(before_remove, x);
                assert(before_remove.contains(x));
                assert(before_remove.to_multiset().count(x) > 0);
            }
            // the prefix of length i+1 is sorted again
            assert forall|a: int, b: int| 0 <= a < b < i + 1 implies #[trigger] v@[a].0
                <= #[trigger] v@[b].0 by {
                if b < j {
                    assert(v@[a] == before_insert[a] && v@[b] == before_insert[b]);
                    assert(before_insert[a] == after_remove[a]);
                    assert(before_insert[b] == after_remove[b]);
                } else if b == j {
                    assert(v@[b] == x);
                    if a < j {
                        assert(v@[a] == before_insert[a]);
                        assert(j >= 1);
                        // the scan stopped at j, so the element before it
                        // does not exceed the key, and the sorted prefix
                        // bounds everything below it
                        assert(before_insert[j - 1].0 <= x.0);
                        if a < j - 1 {
                            assert(before_insert[a].0 <= before_insert[j - 1].0);
                        }
                    }
                } else {
                    assert(v@[b] == before_insert[b - 1]);
                    assert(before_insert[b - 1].0 > x.0 || b - 1 < j);
                    if a == j {
                        assert(v@[a] == x);
                        assert(before_insert[b - 1].0 > x.0);
                    } else if a < j {
                        assert(v@[a] == before_insert[a]);
                        if b - 1 >= i {
                        } else {
                            assert(before_insert[a].0 <= before_insert[b - 1].0 || {
                                &&& before_insert[b - 1].0 > x.0
                                &&& before_insert[j - 1].0 <= x.0
                            });
                            if j <= b - 1 < i {
                                assert(before_insert[b - 1].0 > x.0);
                                assert(before_insert[j - 1].0 <= x.0);
                                if a <= j - 1 {
                                    assert(before_insert[a].0 <= before_insert[j - 1].0 || a == j
                                        - 1);
                                }
                            } else {
                                assert(a < b - 1 < i || a == b - 1);
                                if a < b - 1 {
                                    assert(before_insert[a].0 <= before_insert[b - 1].0);
                                }
                            }
                        }
                    } else {
                        assert(v@[a] == before_insert[a - 1]);
                        if a - 1 < b - 1 && b - 1 < i && j <= a - 1 {
                            assert(before_insert[a - 1].0 <= before_insert[b - 1].0);
                        }
                    }
                }
            }
        }
        i = i + 1;
    }
    proof {
        assert(v@.take(v@.len() as int) =~= v@);
        assert(orig.take(orig.len() as int) =~= orig);
        assert(orig.skip(orig.len() as int) =~= Seq::<(u128, T)>::empty());
        assert(spec_stable_sort(orig) + orig.skip(orig.len() as int) =~= spec_stable_sort(
            orig,
        ));
    }
    v
}

/// Reverse a vector.
pub fn reverse_vec<T>(items: Vec<T>) -> (r: Vec<T>)
    ensures
        r@ == items@.reverse(),
{
    let ghost orig = items@;
    let mut r: Vec<T> = Vec::new();
    let mut items = items;
    proof {
        assert(items@ =~= orig.take(items@.len() as int));
        assert(r@ =~= orig.skip(items@.len() as int).reverse());
    }
    while items.len() > 0
        invariant
            items@.len() <= orig.len(),
            items@ == orig.take(items@.len() as int),
            r@ == orig.skip(items@.len() as int).reverse(),
        decreases items.len(),
    {
        let ghost k = items@.len() as int;
        let x = items.pop().unwrap();
        proof {
            assert(x == orig[k - 1]);
            assert(items@ =~= orig.take(k - 1));
        }
        r.push(x);
        proof {
            assert(r@ =~= orig.skip(k - 1).reverse());
        }
    }
    proof {
        assert(orig.skip(0) =~= orig);
    }
    r
}


/// Strip the sort keys, keeping the items in their sorted order.
pub fn unkey<T>(items: Vec<(u128, T)>) -> (r: Vec<T>)
    ensures
        r@ == items@.map_values(|t: (u128, T)| t.1),
{
    let ghost orig = items@;
    let mut items = items;
    let mut r: Vec<T> = Vec::new();
    while items.len() > 0
        invariant
            items@.len() <= orig.len(),
            items@ == orig.skip(orig.len() - items@.len()),
            r@ == orig.take(orig.len() - items@.len()).map_values(|t: (u128, T)| t.1),
        decreases items@.len(),
    {
        let ghost k = orig.len() - items@.len();
        let t = items.remove(0);
        proof {
            assert(orig.skip(k)[0] == orig[k]);
            assert(t == orig[k]);
            assert(items@ =~= orig.skip(k + 1));
        }
        r.push(t.1);
        proof {
            assert(r@ =~= orig.take(k + 1).map_values(|t: (u128, T)| t.1));
        }
    }
    proof {
        assert(orig.take(orig.len() as int) =~= orig);
    }
    r
}


/// `t` rearranges `s` by the index map `perm`, keys ascending, and items
/// with equal keys keep their order in `s`.
pub open spec fn stable_asc_perm<T>(s: Seq<(u128, T)>, t: Seq<(u128, T)>, perm: Seq<int>) -> bool {
    &&& perm.len() == s.len()
    &&& t.len() == s.len()
    &&& forall|m: int| 0 <= m < perm.len() ==> 0 <= #[trigger] perm[m] < s.len()
    &&& forall|m: int| 0 <= m < perm.len() ==> t[m] == s[#[trigger] perm[m]]
    &&& forall|m: int, n: int| 0 <= m < n < perm.len() ==> #[trigger] perm[m] != #[trigger]
        perm[n]
    &&& forall|m: int, n: int|
        0 <= m < n < t.len() && (#[trigger] t[m]).0 == (#[trigger] t[n]).0 ==> perm[m]
            < perm[n]
}

/// Where an item lands when inserted into a sorted run: behind every item
/// whose key does not exceed its own.
spec fn insert_pos_ok<T>(t: Seq<(u128, T)>, x: (u128, T), q: int) -> bool {
    &&& 0 <= q <= t.len()
    &&& spec_insert_sorted(t, x) == t.insert(q, x)
    &&& forall|m: int| 0 <= m < q ==> (#[trigger] t[m]).0 <= x.0
    &&& forall|m: int| q <= m < t.len() ==> (#[trigger] t[m]).0 > x.0
}

proof fn lemma_insert_sorted_pos<T>(t: Seq<(u128, T)>, x: (u128, T))
    requires
        sorted_asc(t),
    ensures
        exists|q: int| #[trigger] insert_pos_ok(t, x, q),
    decreases t.len(),
{
    if t.len() == 0 {
        assert(t.insert(0, x) =~= seq![x]);
        assert(insert_pos_ok(t, x, 0));
    } else if t.last().0 <= x.0 {
        assert(t.insert(t.len() as int, x) =~= t.push(x));
        assert(insert_pos_ok(t, x, t.len() as int));
    } else {
        assert forall|a: int, b: int| 0 <= a < b < t.drop_last().len() implies (
        #[trigger] t.drop_last()[a]).0 <= (#[trigger] t.drop_last()[b]).0 by {
            assert(t.drop_last()[a] == t[a]);
            assert(t.drop_last()[b] == t[b]);
        }
        lemma_insert_sorted_pos(t.drop_last(), x);
        let q = choose|q: int| #[trigger] insert_pos_ok(t.drop_last(), x, q);
        assert(t.drop_last().insert(q, x).push(t.last()) =~= t.insert(q, x));
        assert forall|m: int| 0 <= m < q implies (#[trigger] t[m]).0 <= x.0 by {
            assert(t.drop_last()[m] == t[m]);
        }
        assert forall|m: int| q <= m < t.len() implies (#[trigger] t[m]).0 > x.0 by {
            if m < t.len() - 1 {
                assert(t.drop_last()[m] == t[m]);
            }
        }
        assert(insert_pos_ok(t, x, q));
    }
}

proof fn lemma_insert_sorted_sorted<T>(t: Seq<(u128, T)>, x: (u128, T))
    requires
        sorted_asc(t),
    ensures
        sorted_asc(spec_insert_sorted(t, x)),
{
    lemma_insert_sorted_pos(t, x);
    let q = choose|q: int| #[trigger] insert_pos_ok(t, x, q);
    let u = t.insert(q, x);
    assert forall|a: int, b: int| 0 <= a < b < u.len() implies (#[trigger] u[a]).0 <= (
    #[trigger] u[b]).0 by {
        if a < q && b < q {
        } else if a < q && b == q {
            assert(u[a] == t[a]);
        } else if a < q {
            assert(u[a] == t[a]);
            assert(u[b] == t[b - 1]);
            if b - 1 >= q {
            } else {
            }
        } else if a == q {
            assert(u[b] == t[b - 1]);
            assert(t[b - 1].0 > x.0);
        } else {
            assert(u[a] == t[a - 1]);
            assert(u[b] == t[b - 1]);
        }
    }
}

/// The stable sort is sorted.
pub proof fn lemma_stable_sort_sorted<T>(s: Seq<(u128, T)>)
    ensures
        sorted_asc(spec_stable_sort(s)),
    decreases s.len(),
{
    if s.len() > 0 {
        lemma_stable_sort_sorted(s.drop_last());
        lemma_insert_sorted_sorted(spec_stable_sort(s.drop_last()), s.last());
    }
}

/// The stable sort rearranges its input by a stability-respecting
/// permutation: equal keys keep their input order.
pub proof fn lemma_stable_sort_perm<T>(s: Seq<(u128, T)>)
    ensures
        exists|perm: Seq<int>| #[trigger] stable_asc_perm(s, spec_stable_sort(s), perm),
    decreases s.len(),
{
    if s.len() == 0 {
        assert(stable_asc_perm(s, spec_stable_sort(s), Seq::<int>::empty()));
    } else {
        let s0 = s.drop_last();
        let x = s.last();
        let n = s.len() as int;
        lemma_stable_sort_perm(s0);
        let perm0 = choose|perm0: Seq<int>| #[trigger] stable_asc_perm(
            s0,
            spec_stable_sort(s0),
            perm0,
        );
        let t0 = spec_stable_sort(s0);
        lemma_stable_sort_sorted(s0);
        lemma_insert_sorted_pos(t0, x);
        let q = choose|q: int| #[trigger] insert_pos_ok(t0, x, q);
        let t = t0.insert(q, x);
        assert(t == spec_stable_sort(s));
        let perm = perm0.insert(q, n - 1);
        assert(stable_asc_perm(s, t, perm)) by {
            assert forall|m: int| 0 <= m < perm.len() implies 0 <= #[trigger] perm[m] < n by {
                if m < q {
                    assert(perm[m] == perm0[m]);
                } else if m > q {
                    assert(perm[m] == perm0[m - 1]);
                }
            }
            assert forall|m: int| 0 <= m < perm.len() implies t[m] == s[#[trigger] perm[m]]
                by {
                if m < q {
                    assert(perm[m] == perm0[m]);
                    assert(t[m] == t0[m]);
                    assert(t0[m] == s0[perm0[m]]);
                    assert(s0[perm0[m]] == s[perm0[m]]);
                } else if m == q {
                    assert(t[m] == x);
                } else {
                    assert(perm[m] == perm0[m - 1]);
                    assert(t[m] == t0[m - 1]);
                    assert(t0[m - 1] == s0[perm0[m - 1]]);
                    assert(s0[perm0[m - 1]] == s[perm0[m - 1]]);
                }
            }
            assert forall|m: int, l: int| 0 <= m < l < perm.len() implies #[trigger] perm[m]
                != #[trigger] perm[l] by {
                if m < q && l < q {
                    assert(perm[m] == perm0[m] && perm[l] == perm0[l]);
                } else if m < q && l == q {
                    assert(perm[m] == perm0[m] && perm0[m] < n - 1);
                } else if m < q {
                    assert(perm[m] == perm0[m] && perm[l] == perm0[l - 1]);
                } else if m == q {
                    assert(perm[l] == perm0[l - 1] && perm0[l - 1] < n - 1);
                } else {
                    assert(perm[m] == perm0[m - 1] && perm[l] == perm0[l - 1]);
                }
            }
            assert forall|m: int, l: int|
                0 <= m < l < t.len() && (#[trigger] t[m]).0 == (#[trigger] t[l]).0 implies
                perm[m] < perm[l] by {
                if m < q && l < q {
                    assert(t[m] == t0[m] && t[l] == t0[l]);
                    assert(perm[m] == perm0[m] && perm[l] == perm0[l]);
                } else if m < q && l == q {
                    assert(t[m] == t0[m]);
                    assert(perm[m] == perm0[m] && perm0[m] < n - 1);
                    assert(perm[l] == n - 1);
                } else if m < q {
                    assert(t[m] == t0[m] && t[l] == t0[l - 1]);
                    assert(perm[m] == perm0[m] && perm[l] == perm0[l - 1]);
                } else if m == q {
                    // everything behind the insertion point has a larger key
                    assert(t[l] == t0[l - 1]);
                    assert(t0[l - 1].0 > x.0);
                    assert(false);
                } else {
                    assert(t[m] == t0[m - 1] && t[l] == t0[l - 1]);
                    assert(perm[m] == perm0[m - 1] && perm[l] == perm0[l - 1]);
                }
            }
        }
    }
}

} // verus!
