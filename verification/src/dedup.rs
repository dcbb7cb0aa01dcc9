//! Removing duplicate UTXOs from the required and optional lists, keeping
//! the first occurrence of every outpoint; an outpoint present in both lists
//! is kept in the required one.

use vstd::prelude::*;

use crate::types::same_outpoint;
use crate::types::wu_views;
use crate::types::OutPoint;
use crate::types::WeightedUtxo;
use crate::types::WeightedUtxoV;

verus! {

/// Whether some element of `s` has the outpoint `op`.
pub open spec fn contains_outpoint(s: Seq<WeightedUtxoV>, op: OutPoint) -> bool {
    exists|i: int| 0 <= i < s.len() && #[trigger] same_outpoint(s[i].outpoint(), op)
}

/// No two elements of `s` share an outpoint.
pub open spec fn distinct_outpoints(s: Seq<WeightedUtxoV>) -> bool {
    forall|i: int, j: int| 0 <= i < j < s.len() ==> !same_outpoint(
        #[trigger] s[i].outpoint(),
        #[trigger] s[j].outpoint(),
    )
}

/// The elements of `s` whose outpoint occurs neither in `base` nor earlier
/// in `s`: the first occurrence of every outpoint new over `base`.
pub open spec fn spec_dedup(s: Seq<WeightedUtxoV>, base: Seq<WeightedUtxoV>) -> Seq<
    WeightedUtxoV,
>
    decreases s.len(),
{
    if s.len() == 0 {
        Seq::empty()
    } else {
        let kept = spec_dedup(s.drop_last(), base);
        if contains_outpoint(base + s.drop_last(), s.last().outpoint()) {
            kept
        } else {
            kept.push(s.last())
        }
    }
}

/// An outpoint occurs among the kept elements exactly when it occurs in the
/// input and not in `base`.
pub proof fn lemma_dedup_contains(s: Seq<WeightedUtxoV>, base: Seq<WeightedUtxoV>, op: OutPoint)
    ensures
        contains_outpoint(spec_dedup(s, base), op) <==> (contains_outpoint(s, op)
            && !contains_outpoint(base, op)),
    decreases s.len(),
{
    if s.len() == 0 {
    } else {
        let prefix = s.drop_last();
        let last = s.last();
        lemma_dedup_contains(prefix, base, op);
        lemma_dedup_contains(prefix, base, last.outpoint());
        if contains_outpoint(prefix, op) {
            let i = choose|i: int| 0 <= i < prefix.len() && same_outpoint(
                prefix[i].outpoint(),
                op,
            );
            assert(same_outpoint(s[i].outpoint(), op));
        }
        if contains_outpoint(base + prefix, last.outpoint()) {
            // the last element is dropped; occurrences are as in the prefix
            if contains_outpoint(s, op) && !contains_outpoint(base, op) && !contains_outpoint(
                prefix,
                op,
            ) {
                let i = choose|i: int| 0 <= i < s.len() && same_outpoint(s[i].outpoint(), op);
                if i < s.len() - 1 {
                    assert(same_outpoint(prefix[i].outpoint(), op));
                }
                assert(i == s.len() - 1);
                // op is the outpoint of the last element, which occurs in base or prefix
                let j = choose|j: int| 0 <= j < (base + prefix).len() && same_outpoint(
                    (base + prefix)[j].outpoint(),
                    last.outpoint(),
                );
                if j < base.len() {
                    assert(same_outpoint(base[j].outpoint(), op));
                } else {
                    assert(same_outpoint(prefix[j - base.len()].outpoint(), op));
                }
            }
        } else {
            let kept = spec_dedup(prefix, base).push(last);
            if contains_outpoint(s, op) {
                let i = choose|i: int| 0 <= i < s.len() && same_outpoint(s[i].outpoint(), op);
                if i < s.len() - 1 {
                    assert(same_outpoint(prefix[i].outpoint(), op));
                }
            }
            if same_outpoint(last.outpoint(), op) {
                if contains_outpoint(base, op) {
                    let j = choose|j: int| 0 <= j < base.len() && same_outpoint(
                        base[j].outpoint(),
                        op,
                    );
                    assert(same_outpoint((base + prefix)[j].outpoint(), last.outpoint()));
                }
                assert(same_outpoint(s[s.len() - 1].outpoint(), op));
                assert(same_outpoint(kept[kept.len() - 1].outpoint(), op));
            }
            if contains_outpoint(spec_dedup(prefix, base), op) {
                let i = choose|i: int| 0 <= i < spec_dedup(prefix, base).len() && same_outpoint(
                    spec_dedup(prefix, base)[i].outpoint(),
                    op,
                );
                assert(same_outpoint(kept[i].outpoint(), op));
            }
            if contains_outpoint(kept, op) && !same_outpoint(last.outpoint(), op) {
                let i = choose|i: int| 0 <= i < kept.len() && same_outpoint(
                    kept[i].outpoint(),
                    op,
                );
                assert(i < kept.len() - 1);
                assert(same_outpoint(spec_dedup(prefix, base)[i].outpoint(), op));
            }
        }
    }
}

/// The kept elements of a deduplication have pairwise distinct outpoints,
/// all of them new over `base`.
pub proof fn lemma_dedup_distinct(s: Seq<WeightedUtxoV>, base: Seq<WeightedUtxoV>)
    ensures
        distinct_outpoints(spec_dedup(s, base)),
        forall|i: int| 0 <= i < spec_dedup(s, base).len() ==> !contains_outpoint(
            base,
            #[trigger] spec_dedup(s, base)[i].outpoint(),
        ),
    decreases s.len(),
{
    if s.len() == 0 {
    } else {
        let prefix = s.drop_last();
        let last = s.last();
        lemma_dedup_distinct(prefix, base);
        let kept = spec_dedup(prefix, base);
        if contains_outpoint(base + prefix, last.outpoint()) {
        } else {
            assert forall|i: int| 0 <= i < kept.len() implies !same_outpoint(
                kept[i].outpoint(),
                last.outpoint(),
            ) by {
                lemma_dedup_contains(prefix, base, last.outpoint());
                if same_outpoint(kept[i].outpoint(), last.outpoint()) {
                    assert(contains_outpoint(kept, last.outpoint()));
                    let j = choose|j: int| 0 <= j < prefix.len() && same_outpoint(
                        prefix[j].outpoint(),
                        last.outpoint(),
                    );
                    assert(same_outpoint((base + prefix)[base.len() + j].outpoint(),
                        last.outpoint()));
                }
            }
            assert forall|i: int, j: int| 0 <= i < j < kept.push(last).len() implies
                !same_outpoint(
                #[trigger] kept.push(last)[i].outpoint(),
                #[trigger] kept.push(last)[j].outpoint(),
            ) by {
                if j < kept.len() {
                    assert(kept.push(last)[i] == kept[i]);
                    assert(kept.push(last)[j] == kept[j]);
                }
            }
            if contains_outpoint(base, last.outpoint()) {
                let j = choose|j: int| 0 <= j < base.len() && same_outpoint(
                    base[j].outpoint(),
                    last.outpoint(),
                );
                assert(same_outpoint((base + prefix)[j].outpoint(), last.outpoint()));
            }
        }
    }
}

/// Deduplicating a list whose outpoints are already pairwise distinct, over
/// an empty base, keeps it unchanged.
pub proof fn lemma_dedup_identity(s: Seq<WeightedUtxoV>)
    requires
        distinct_outpoints(s),
    ensures
        spec_dedup(s, Seq::empty()) == s,
    decreases s.len(),
{
    if s.len() == 0 {
        assert(spec_dedup(s, Seq::empty()) =~= s);
    } else {
        let prefix = s.drop_last();
        lemma_dedup_identity(prefix);
        let e: Seq<WeightedUtxoV> = Seq::empty();
        if contains_outpoint(e + prefix, s.last().outpoint()) {
            let i = choose|i: int| 0 <= i < (e + prefix).len() && same_outpoint(
                (e + prefix)[i].outpoint(),
                s.last().outpoint(),
            );
            assert(same_outpoint(s[i].outpoint(), s[s.len() - 1].outpoint()));
        }
        assert(spec_dedup(s, e) =~= s);
    }
}

fn contains_outpoint_exec(v: &Vec<WeightedUtxo>, op: &OutPoint) -> (r: bool)
    ensures
        r == contains_outpoint(wu_views(v@), *op),
{
    let mut i: usize = 0;
    while i < v.len()
        invariant
            0 <= i <= v.len(),
            forall|j: int| 0 <= j < i ==> !same_outpoint(
                #[trigger] wu_views(v@)[j].outpoint(),
                *op,
            ),
        decreases v.len() - i,
    {
        let found = crate::types::outpoint_eq(&v[i].utxo.outpoint(), op);
        if found {
            proof {
                assert(same_outpoint(wu_views(v@)[i as int].outpoint(), *op));
            }
            return true;
        }
        i = i + 1;
    }
    false
}

/// Remove duplicate UTXOs: keep the first occurrence of every outpoint,
/// walking `required` first and `optional` second, so an outpoint present in
/// both lists survives only in the required list.
pub fn filter_duplicates(required: Vec<WeightedUtxo>, optional: Vec<WeightedUtxo>) -> (r: (
    Vec<WeightedUtxo>,
    Vec<WeightedUtxo>,
))
    ensures
        wu_views(r.0@) == spec_dedup(wu_views(required@), Seq::empty()),
        wu_views(r.1@) == spec_dedup(wu_views(optional@), wu_views(required@)),
        distinct_outpoints(wu_views(r.0@) + wu_views(r.1@)),
        distinct_outpoints(wu_views(required@)) ==> wu_views(r.0@) == wu_views(required@),
{
    let ghost req_views = wu_views(required@);
    let ghost opt_views = wu_views(optional@);
    let mut kept_required: Vec<WeightedUtxo> = Vec::new();
    let mut i: usize = 0;
    while i < required.len()
        invariant
            0 <= i <= required.len(),
            req_views == wu_views(required@),
            wu_views(kept_required@) == spec_dedup(req_views.take(i as int), Seq::empty()),
        decreases required.len() - i,
    {
        let ghost prefix = req_views.take(i as int);
        let op = required[i].utxo.outpoint();
        let dup = contains_outpoint_exec(&kept_required, &op);
        proof {
            assert(req_views.take(i + 1).drop_last() =~= prefix);
            assert(req_views.take(i + 1).last() == req_views[i as int]);
            assert(op == req_views[i as int].outpoint());
            lemma_dedup_contains(prefix, Seq::empty(), op);
            assert(Seq::<WeightedUtxoV>::empty() + prefix =~= prefix);
        }
        if !dup {
            let w = required[i].copied();
            kept_required.push(w);
            proof {
                assert(wu_views(kept_required@) =~= spec_dedup(req_views.take(i + 1),
                    Seq::empty()));
            }
        } else {
            proof {
                assert(wu_views(kept_required@) =~= spec_dedup(req_views.take(i + 1),
                    Seq::empty()));
            }
        }
        i = i + 1;
    }
    proof {
        assert(req_views.take(required@.len() as int) =~= req_views);
    }
    let mut kept_optional: Vec<WeightedUtxo> = Vec::new();
    let mut i: usize = 0;
    while i < optional.len()
        invariant
            0 <= i <= optional.len(),
            req_views == wu_views(required@),
            opt_views == wu_views(optional@),
            wu_views(kept_required@) == spec_dedup(req_views, Seq::empty()),
            wu_views(kept_optional@) == spec_dedup(opt_views.take(i as int), req_views),
        decreases optional.len() - i,
    {
        let ghost prefix = opt_views.take(i as int);
        let op = optional[i].utxo.outpoint();
        let dup_req = contains_outpoint_exec(&kept_required, &op);
        let dup_opt = if dup_req {
            true
        } else {
            contains_outpoint_exec(&kept_optional, &op)
        };
        proof {
            assert(opt_views.take(i + 1).drop_last() =~= prefix);
            assert(opt_views.take(i + 1).last() == opt_views[i as int]);
            assert(op == opt_views[i as int].outpoint());
            lemma_dedup_contains(req_views, Seq::empty(), op);
            lemma_dedup_contains(prefix, req_views, op);
            // occurring in `required + prefix` is occurring in either part
            if contains_outpoint(req_views + prefix, op) {
                let j = choose|j: int| 0 <= j < (req_views + prefix).len() && same_outpoint(
                    (req_views + prefix)[j].outpoint(),
                    op,
                );
                if j < req_views.len() {
                    assert(same_outpoint(req_views[j].outpoint(), op));
                } else {
                    assert(same_outpoint(prefix[j - req_views.len()].outpoint(), op));
                }
            }
            if contains_outpoint(req_views, op) {
                let j = choose|j: int| 0 <= j < req_views.len() && same_outpoint(
                    req_views[j].outpoint(),
                    op,
                );
                assert(same_outpoint((req_views + prefix)[j].outpoint(), op));
            }
            if contains_outpoint(prefix, op) {
                let j = choose|j: int| 0 <= j < prefix.len() && same_outpoint(
                    prefix[j].outpoint(),
                    op,
                );
                assert(same_outpoint((req_views + prefix)[req_views.len() + j].outpoint(), op));
            }
        }
        if !dup_opt {
            let w = optional[i].copied();
            kept_optional.push(w);
            proof {
                assert(wu_views(kept_optional@) =~= spec_dedup(opt_views.take(i + 1),
                    req_views));
            }
        } else {
            proof {
                assert(wu_views(kept_optional@) =~= spec_dedup(opt_views.take(i + 1),
                    req_views));
            }
        }
        i = i + 1;
    }
    proof {
        assert(opt_views.take(optional@.len() as int) =~= opt_views);
        lemma_dedup_distinct(req_views, Seq::empty());
        lemma_dedup_distinct(opt_views, req_views);
        if distinct_outpoints(req_views) {
            lemma_dedup_identity(req_views);
        }
        // the two kept lists share no outpoint
        let kr = spec_dedup(req_views, Seq::empty());
        let ko = spec_dedup(opt_views, req_views);
        assert forall|i: int, j: int| 0 <= i < j < (kr + ko).len() implies !same_outpoint(
            #[trigger] (kr + ko)[i].outpoint(),
            #[trigger] (kr + ko)[j].outpoint(),
        ) by {
            if j < kr.len() {
            } else if i >= kr.len() {
                assert((kr + ko)[i] == ko[i - kr.len()]);
                assert((kr + ko)[j] == ko[j - kr.len()]);
            } else {
                // one from each list: the optional keep is new over required
                let a = kr[i];
                let b = ko[j - kr.len()];
                if same_outpoint(a.outpoint(), b.outpoint()) {
                    lemma_dedup_contains(req_views, Seq::empty(), a.outpoint());
                    assert(same_outpoint(kr[i].outpoint(), a.outpoint()));
                    assert(contains_outpoint(kr, a.outpoint()));
                    assert(contains_outpoint(req_views, a.outpoint()));
                    let m = choose|m: int| 0 <= m < req_views.len() && same_outpoint(
                        req_views[m].outpoint(),
                        a.outpoint(),
                    );
                    assert(same_outpoint(req_views[m].outpoint(), b.outpoint()));
                    assert(contains_outpoint(req_views, b.outpoint()));
                }
            }
        }
    }
    (kept_required, kept_optional)
}

} // verus!
