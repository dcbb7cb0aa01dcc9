//! Sums of a function over a sequence, and how they behave under
//! concatenation, permutation and flattening. The selection contracts are
//! stated with these sums (total value, total fee, total effective value).

use vstd::prelude::*;
use vstd::seq_lib::lemma_flatten_concat;
use vstd::seq_lib::lemma_multiset_commutative;
use vstd::seq_lib::to_multiset_contains;
use vstd::seq_lib::to_multiset_len;
use vstd::seq_lib::to_multiset_remove;

verus! {

/// Sum of `f` over the elements of `s`.
pub open spec fn seq_sum<A>(s: Seq<A>, f: spec_fn(A) -> int) -> int
    decreases s.len(),
{
    if s.len() == 0 {
        0
    } else {
        seq_sum(s.drop_last(), f) + f(s.last())
    }
}

pub proof fn lemma_seq_sum_push<A>(s: Seq<A>, x: A, f: spec_fn(A) -> int)
    ensures
        seq_sum(s.push(x), f) == seq_sum(s, f) + f(x),
{
    assert(s.push(x).drop_last() =~= s);
}

pub proof fn lemma_seq_sum_singleton<A>(x: A, f: spec_fn(A) -> int)
    ensures
        seq_sum(seq![x], f) == f(x),
{
    assert(seq![x] =~= Seq::<A>::empty().push(x));
    lemma_seq_sum_push(Seq::<A>::empty(), x, f);
}

pub proof fn lemma_seq_sum_concat<A>(a: Seq<A>, b: Seq<A>, f: spec_fn(A) -> int)
    ensures
        seq_sum(a + b, f) == seq_sum(a, f) + seq_sum(b, f),
    decreases b.len(),
{
    if b.len() == 0 {
        assert(a + b =~= a);
    } else {
        assert((a + b).drop_last() =~= a + b.drop_last());
        assert((a + b).last() == b.last());
        lemma_seq_sum_concat(a, b.drop_last(), f);
    }
}

pub proof fn lemma_seq_sum_remove<A>(s: Seq<A>, i: int, f: spec_fn(A) -> int)
    requires
        0 <= i < s.len(),
    ensures
        seq_sum(s.remove(i), f) == seq_sum(s, f) - f(s[i]),
{
    let left = s.subrange(0, i);
    let mid = seq![s[i]];
    let right = s.subrange(i + 1, s.len() as int);
    assert(s =~= left + mid + right);
    assert(s.remove(i) =~= left + right);
    lemma_seq_sum_concat(left + mid, right, f);
    lemma_seq_sum_concat(left, mid, f);
    lemma_seq_sum_concat(left, right, f);
    lemma_seq_sum_singleton(s[i], f);
}

/// A sum depends only on which elements occur how often, not on their order.
pub proof fn lemma_seq_sum_multiset<A>(a: Seq<A>, b: Seq<A>, f: spec_fn(A) -> int)
    requires
        a.to_multiset() == b.to_multiset(),
    ensures
        seq_sum(a, f) == seq_sum(b, f),
    decreases a.len(),
{
    to_multiset_len(a);
    to_multiset_len(b);
    if a.len() == 0 {
    } else {
        let x = a.last();
        let i = a.len() - 1;
        to_multiset_contains(a, x);
        to_multiset_contains(b, x);
        assert(a.contains(x));
        let j = choose|j: int| 0 <= j < b.len() && b[j] == x;
        to_multiset_remove(a, i);
        to_multiset_remove(b, j);
        assert(a.remove(i) =~= a.drop_last());
        lemma_seq_sum_remove(b, j, f);
        lemma_seq_sum_multiset(a.drop_last(), b.remove(j), f);
    }
}

/// If every element of `b` contributes a non-negative amount and `a` occurs
/// within `b` (counting multiplicity), the sum over `a` is at most the sum
/// over `b`.
pub proof fn lemma_seq_sum_subset<A>(a: Seq<A>, b: Seq<A>, f: spec_fn(A) -> int)
    requires
        a.to_multiset().subset_of(b.to_multiset()),
        forall|i: int| 0 <= i < b.len() ==> #[trigger] f(b[i]) >= 0,
    ensures
        seq_sum(a, f) <= seq_sum(b, f),
    decreases a.len(),
{
    to_multiset_len(a);
    to_multiset_len(b);
    if a.len() == 0 {
        lemma_seq_sum_nonneg(b, f);
    } else {
        let x = a.last();
        let i = a.len() - 1;
        to_multiset_contains(a, x);
        to_multiset_contains(b, x);
        assert(a.to_multiset().count(x) > 0);
        assert(b.contains(x));
        let j = choose|j: int| 0 <= j < b.len() && b[j] == x;
        to_multiset_remove(a, i);
        to_multiset_remove(b, j);
        assert(a.remove(i) =~= a.drop_last());
        assert(a.drop_last().to_multiset().subset_of(b.remove(j).to_multiset())) by {
            assert forall|y: A| #[trigger] a.drop_last().to_multiset().count(y)
                <= b.remove(j).to_multiset().count(y) by {
                assert(a.to_multiset().count(y) <= b.to_multiset().count(y));
            }
        }
        assert(forall|k: int| 0 <= k < b.remove(j).len() ==> #[trigger] f(b.remove(j)[k]) >= 0)
            by {
            assert forall|k: int| 0 <= k < b.remove(j).len() implies #[trigger] f(b.remove(j)[k])
                >= 0 by {
                if k < j {
                    assert(b.remove(j)[k] == b[k]);
                } else {
                    assert(b.remove(j)[k] == b[k + 1]);
                }
            }
        }
        lemma_seq_sum_subset(a.drop_last(), b.remove(j), f);
        lemma_seq_sum_remove(b, j, f);
    }
}

pub proof fn lemma_seq_sum_nonneg<A>(s: Seq<A>, f: spec_fn(A) -> int)
    requires
        forall|i: int| 0 <= i < s.len() ==> #[trigger] f(s[i]) >= 0,
    ensures
        seq_sum(s, f) >= 0,
    decreases s.len(),
{
    if s.len() > 0 {
        lemma_seq_sum_nonneg(s.drop_last(), f);
    }
}

/// A sum over a prefix of non-negative contributions stays under the sum
/// over the whole.
pub proof fn lemma_seq_sum_prefix_bound<A>(s: Seq<A>, n: int, f: spec_fn(A) -> int)
    requires
        0 <= n <= s.len(),
        forall|i: int| 0 <= i < s.len() ==> #[trigger] f(s[i]) >= 0,
    ensures
        0 <= seq_sum(s.take(n), f) <= seq_sum(s, f),
    decreases s.len() - n,
{
    assert forall|i: int| 0 <= i < s.take(n).len() implies #[trigger] f(s.take(n)[i]) >= 0 by {
        assert(s.take(n)[i] == s[i]);
    }
    lemma_seq_sum_nonneg(s.take(n), f);
    if n < s.len() {
        lemma_seq_sum_prefix_bound(s, n + 1, f);
        lemma_seq_sum_push(s.take(n), s[n], f);
        assert(s.take(n + 1) =~= s.take(n).push(s[n]));
    } else {
        assert(s.take(n) =~= s);
    }
}

/// Mapping preserves how often the images occur.
pub proof fn lemma_map_values_multiset<A, B>(a: Seq<A>, b: Seq<A>, f: spec_fn(A) -> B)
    requires
        a.to_multiset() == b.to_multiset(),
    ensures
        a.map_values(f).to_multiset() == b.map_values(f).to_multiset(),
    decreases a.len(),
{
    to_multiset_len(a);
    to_multiset_len(b);
    if a.len() == 0 {
        assert(a.map_values(f) =~= b.map_values(f));
    } else {
        let x = a.last();
        let i = a.len() - 1;
        to_multiset_contains(a, x);
        to_multiset_contains(b, x);
        assert(a.contains(x));
        let j = choose|j: int| 0 <= j < b.len() && b[j] == x;
        to_multiset_remove(a, i);
        to_multiset_remove(b, j);
        assert(a.remove(i) =~= a.drop_last());
        lemma_map_values_multiset(a.drop_last(), b.remove(j), f);
        assert(a.drop_last().map_values(f) =~= a.map_values(f).remove(i));
        assert(b.remove(j).map_values(f) =~= b.map_values(f).remove(j));
        to_multiset_remove(a.map_values(f), i);
        to_multiset_remove(b.map_values(f), j);
        assert(a.map_values(f)[i] == f(x));
        assert(b.map_values(f)[j] == f(x));
        broadcast use vstd::multiset::group_multiset_axioms;

        to_multiset_contains(a.map_values(f), f(x));
        to_multiset_contains(b.map_values(f), f(x));
        assert(a.map_values(f).contains(f(x))) by {
            assert(a.map_values(f)[i] == f(x));
        }
        assert(b.map_values(f).contains(f(x))) by {
            assert(b.map_values(f)[j] == f(x));
        }
        let am = a.map_values(f).to_multiset();
        let bm = b.map_values(f).to_multiset();
        assert(am.remove(f(x)) == bm.remove(f(x)));
        assert(am.count(f(x)) > 0);
        assert(bm.count(f(x)) > 0);
        assert forall|y: B| am.count(y) == bm.count(y) by {
            if y == f(x) {
                assert(am.remove(f(x)).count(y) == am.count(y) - 1);
                assert(bm.remove(f(x)).count(y) == bm.count(y) - 1);
            } else {
                assert(am.remove(f(x)).count(y) == am.count(y));
                assert(bm.remove(f(x)).count(y) == bm.count(y));
            }
        }
        assert(am =~= bm);
    }
}

/// Summing over a flattened sequence of groups is summing, over the groups,
/// each group's sum.
pub proof fn lemma_seq_sum_flatten<A>(gs: Seq<Seq<A>>, f: spec_fn(A) -> int, fg: spec_fn(
    Seq<A>,
) -> int)
    requires
        forall|g: Seq<A>| #[trigger] fg(g) == seq_sum(g, f),
    ensures
        seq_sum(gs.flatten(), f) == seq_sum(gs, fg),
    decreases gs.len(),
{
    if gs.len() == 0 {
    } else {
        lemma_seq_sum_flatten(gs.drop_first(), f, fg);
        lemma_seq_sum_concat(gs.first(), gs.drop_first().flatten(), f);
        assert(seq_sum(gs, fg) == seq_sum(gs.drop_first(), fg) + fg(gs.first())) by {
            assert(gs =~= seq![gs.first()] + gs.drop_first());
            lemma_seq_sum_concat(seq![gs.first()], gs.drop_first(), fg);
            lemma_seq_sum_singleton(gs.first(), fg);
        }
    }
}

/// Removing one group removes exactly that group's elements from the
/// flattening.
pub proof fn lemma_flatten_remove<A>(gs: Seq<Seq<A>>, i: int)
    requires
        0 <= i < gs.len(),
    ensures
        gs.flatten().to_multiset() == gs.remove(i).flatten().to_multiset().add(
            gs[i].to_multiset(),
        ),
{
    let left = gs.subrange(0, i);
    let mid = seq![gs[i]];
    let right = gs.subrange(i + 1, gs.len() as int);
    assert(gs =~= (left + mid) + right);
    assert(gs.remove(i) =~= left + right);
    lemma_flatten_concat(left + mid, right);
    lemma_flatten_concat(left, mid);
    lemma_flatten_concat(left, right);
    assert(mid.flatten() =~= gs[i]) by {
        mid.lemma_flatten_one_element();
    }
    lemma_multiset_commutative((left + mid).flatten(), right.flatten());
    lemma_multiset_commutative(left.flatten(), mid.flatten());
    lemma_multiset_commutative(left.flatten(), right.flatten());
    assert(gs.flatten().to_multiset() =~= gs.remove(i).flatten().to_multiset().add(
        gs[i].to_multiset(),
    ));
}

/// Two sequences of groups holding the same groups with the same
/// multiplicities flatten to the same elements with the same multiplicities.
pub proof fn lemma_flatten_multiset<A>(a: Seq<Seq<A>>, b: Seq<Seq<A>>)
    requires
        a.to_multiset() == b.to_multiset(),
    ensures
        a.flatten().to_multiset() == b.flatten().to_multiset(),
    decreases a.len(),
{
    to_multiset_len(a);
    to_multiset_len(b);
    if a.len() == 0 {
    } else {
        let x = a.last();
        let i = a.len() - 1;
        to_multiset_contains(a, x);
        to_multiset_contains(b, x);
        assert(a.contains(x));
        let j = choose|j: int| 0 <= j < b.len() && b[j] == x;
        to_multiset_remove(a, i);
        to_multiset_remove(b, j);
        assert(a.remove(i) =~= a.drop_last());
        lemma_flatten_multiset(a.drop_last(), b.remove(j));
        lemma_flatten_remove(a, i);
        lemma_flatten_remove(b, j);
        assert(a.flatten().to_multiset() =~= b.flatten().to_multiset());
    }
}

/// Pointwise bounds on contributions bound the sum.
pub proof fn lemma_seq_sum_abs_le<A>(s: Seq<A>, f: spec_fn(A) -> int, g: spec_fn(A) -> int)
    requires
        forall|i: int| 0 <= i < s.len() ==> -(#[trigger] g(s[i])) <= f(s[i]) <= g(s[i]),
    ensures
        -seq_sum(s, g) <= seq_sum(s, f) <= seq_sum(s, g),
    decreases s.len(),
{
    if s.len() > 0 {
        lemma_seq_sum_abs_le(s.drop_last(), f, g);
    }
}

/// Every single non-negative contribution is at most the whole sum.
pub proof fn lemma_seq_sum_element_bound<A>(s: Seq<A>, i: int, f: spec_fn(A) -> int)
    requires
        0 <= i < s.len(),
        forall|k: int| 0 <= k < s.len() ==> #[trigger] f(s[k]) >= 0,
    ensures
        f(s[i]) <= seq_sum(s, f),
{
    lemma_seq_sum_remove(s, i, f);
    assert forall|k: int| 0 <= k < s.remove(i).len() implies #[trigger] f(s.remove(i)[k]) >= 0
        by {
        if k < i {
            assert(s.remove(i)[k] == s[k]);
        } else {
            assert(s.remove(i)[k] == s[k + 1]);
        }
    }
    lemma_seq_sum_nonneg(s.remove(i), f);
}

/// Summing after mapping is summing the composition.
pub proof fn lemma_seq_sum_map<A, B>(
    s: Seq<A>,
    m: spec_fn(A) -> B,
    f: spec_fn(B) -> int,
    fm: spec_fn(A) -> int,
)
    requires
        forall|x: A| #[trigger] fm(x) == f(m(x)),
    ensures
        seq_sum(s.map_values(m), f) == seq_sum(s, fm),
    decreases s.len(),
{
    if s.len() > 0 {
        lemma_seq_sum_map(s.drop_last(), m, f, fm);
        assert(s.map_values(m).drop_last() =~= s.drop_last().map_values(m));
        assert(s.map_values(m).last() == m(s.last()));
    } else {
        assert(s.map_values(m).len() == 0);
    }
}

/// Mapping preserves occurring-at-most-as-often.
pub proof fn lemma_map_values_subset<A, B>(a: Seq<A>, b: Seq<A>, f: spec_fn(A) -> B)
    requires
        a.to_multiset().subset_of(b.to_multiset()),
    ensures
        a.map_values(f).to_multiset().subset_of(b.map_values(f).to_multiset()),
    decreases a.len(),
{
    broadcast use vstd::multiset::group_multiset_axioms;

    to_multiset_len(a);
    to_multiset_len(b);
    if a.len() == 0 {
        to_multiset_len(a.map_values(f));
        assert forall|y: B| a.map_values(f).to_multiset().count(y) <= b.map_values(
            f,
        ).to_multiset().count(y) by {
            to_multiset_contains(a.map_values(f), y);
        }
    } else {
        let x = a.last();
        let i = a.len() - 1;
        to_multiset_contains(a, x);
        to_multiset_contains(b, x);
        assert(a.contains(x));
        assert(a.to_multiset().count(x) > 0);
        assert(b.contains(x));
        let j = choose|j: int| 0 <= j < b.len() && b[j] == x;
        to_multiset_remove(a, i);
        to_multiset_remove(b, j);
        assert(a.remove(i) =~= a.drop_last());
        assert(a.drop_last().to_multiset().subset_of(b.remove(j).to_multiset())) by {
            assert forall|y: A| #[trigger] a.drop_last().to_multiset().count(y) <= b.remove(
                j,
            ).to_multiset().count(y) by {
                assert(a.to_multiset().count(y) <= b.to_multiset().count(y));
            }
        }
        lemma_map_values_subset(a.drop_last(), b.remove(j), f);
        assert(a.drop_last().map_values(f) =~= a.map_values(f).remove(i));
        assert(b.remove(j).map_values(f) =~= b.map_values(f).remove(j));
        to_multiset_remove(a.map_values(f), i);
        to_multiset_remove(b.map_values(f), j);
        assert(a.map_values(f)[i] == f(x));
        assert(b.map_values(f)[j] == f(x));
        to_multiset_contains(a.map_values(f), f(x));
        to_multiset_contains(b.map_values(f), f(x));
        assert(a.map_values(f).contains(f(x))) by {
            assert(a.map_values(f)[i] == f(x));
        }
        assert(b.map_values(f).contains(f(x))) by {
            assert(b.map_values(f)[j] == f(x));
        }
        let am = a.map_values(f).to_multiset();
        let bm = b.map_values(f).to_multiset();
        assert(am.remove(f(x)).subset_of(bm.remove(f(x))));
        assert(am.count(f(x)) > 0);
        assert(bm.count(f(x)) > 0);
        assert forall|y: B| am.count(y) <= bm.count(y) by {
            if y == f(x) {
                assert(am.remove(f(x)).count(y) == am.count(y) - 1);
                assert(bm.remove(f(x)).count(y) == bm.count(y) - 1);
            } else {
                assert(am.remove(f(x)).count(y) == am.count(y));
                assert(bm.remove(f(x)).count(y) == bm.count(y));
            }
        }
    }
}

/// Groups occurring at most as often flatten to elements occurring at most
/// as often.
pub proof fn lemma_flatten_subset<A>(a: Seq<Seq<A>>, b: Seq<Seq<A>>)
    requires
        a.to_multiset().subset_of(b.to_multiset()),
    ensures
        a.flatten().to_multiset().subset_of(b.flatten().to_multiset()),
    decreases a.len(),
{
    broadcast use vstd::multiset::group_multiset_axioms;

    to_multiset_len(a);
    to_multiset_len(b);
    if a.len() == 0 {
        assert(a.flatten() =~= Seq::<A>::empty());
        to_multiset_len(a.flatten());
        assert forall|y: A| a.flatten().to_multiset().count(y)
            <= b.flatten().to_multiset().count(y) by {
            to_multiset_contains(a.flatten(), y);
        }
    } else {
        let x = a.last();
        let i = a.len() - 1;
        to_multiset_contains(a, x);
        to_multiset_contains(b, x);
        assert(a.contains(x));
        assert(a.to_multiset().count(x) > 0);
        assert(b.contains(x));
        let j = choose|j: int| 0 <= j < b.len() && b[j] == x;
        to_multiset_remove(a, i);
        to_multiset_remove(b, j);
        assert(a.remove(i) =~= a.drop_last());
        assert(a.drop_last().to_multiset().subset_of(b.remove(j).to_multiset())) by {
            assert forall|y: Seq<A>| #[trigger] a.drop_last().to_multiset().count(y) <= b.remove(
                j,
            ).to_multiset().count(y) by {
                assert(a.to_multiset().count(y) <= b.to_multiset().count(y));
            }
        }
        lemma_flatten_subset(a.drop_last(), b.remove(j));
        lemma_flatten_remove(a, i);
        lemma_flatten_remove(b, j);
    }
}


/// Groups that pointwise occur within other groups flatten to elements that
/// occur at most as often.
pub proof fn lemma_pointwise_subset_flatten<A>(a: Seq<Seq<A>>, b: Seq<Seq<A>>)
    requires
        a.len() == b.len(),
        forall|k: int| 0 <= k < a.len() ==> (#[trigger] a[k]).to_multiset().subset_of(
            b[k].to_multiset(),
        ),
    ensures
        a.flatten().to_multiset().subset_of(b.flatten().to_multiset()),
    decreases a.len(),
{
    broadcast use vstd::multiset::group_multiset_axioms;

    if a.len() == 0 {
        assert(a.flatten() =~= Seq::<A>::empty());
        to_multiset_len(a.flatten());
        assert forall|y: A| a.flatten().to_multiset().count(y)
            <= b.flatten().to_multiset().count(y) by {
            to_multiset_contains(a.flatten(), y);
        }
    } else {
        assert forall|k: int| 0 <= k < a.drop_first().len() implies (#[trigger] a.drop_first()[
        k]).to_multiset().subset_of(b.drop_first()[k].to_multiset()) by {
            assert(a.drop_first()[k] == a[k + 1]);
            assert(b.drop_first()[k] == b[k + 1]);
        }
        lemma_pointwise_subset_flatten(a.drop_first(), b.drop_first());
        assert(a.flatten() == a.first() + a.drop_first().flatten());
        assert(b.flatten() == b.first() + b.drop_first().flatten());
        lemma_multiset_commutative(a.first(), a.drop_first().flatten());
        lemma_multiset_commutative(b.first(), b.drop_first().flatten());
        assert(a[0].to_multiset().subset_of(b[0].to_multiset()));
    }
}

} // verus!
