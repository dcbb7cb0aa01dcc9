//! Branch-and-bound coin selection: a depth-first search over the optional
//! groups for a selection whose effective value lands between the target and
//! the target plus the cost of a change output, within a bounded number of
//! tries, falling back to another policy when no such selection is found.

use vstd::prelude::*;
use vstd::multiset::Multiset;

use vstd::seq_lib::lemma_multiset_commutative;
use vstd::seq_lib::to_multiset_contains;
use vstd::seq_lib::to_multiset_len;
use vstd::seq_lib::to_multiset_remove;

use crate::change::change_fee_fits;
use crate::change::decide_change;
use crate::change::spec_decide_change;
use crate::change::Excess;
use crate::fees::effective_value_of;
use crate::fees::fee_of;
use crate::fees::input_fee;
use crate::fees::input_fee_fits;
use crate::fees::spec_input_fee;
use crate::fees::sum_fee;
use crate::fees::sum_value;
use crate::fees::value_of;
use crate::selection::CoinSelectionResult;
use crate::sums::lemma_seq_sum_concat;
use crate::sums::lemma_seq_sum_nonneg;
use crate::sums::lemma_seq_sum_push;
use crate::sums::seq_sum;
use crate::types::WeightedUtxo;
use crate::types::WeightedUtxoV;

verus! {

/// A UTXO annotated with the fee of spending it and its effective value at
/// a given fee rate.
#[derive(Debug)]
pub struct OutputGroup {
    /// The underlying weighted UTXO.
    pub weighted_utxo: WeightedUtxo,
    /// Fee of spending this UTXO at the fee rate the group was built with.
    pub fee: u64,
    /// The UTXO's value minus that fee; may be negative.
    pub effective_value: i64,
}

/// Mathematical value of an [`OutputGroup`].
pub struct OutputGroupV {
    pub weighted_utxo: WeightedUtxoV,
    pub fee: u64,
    pub effective_value: i64,
}

impl View for OutputGroup {
    type V = OutputGroupV;

    open spec fn view(&self) -> OutputGroupV {
        OutputGroupV {
            weighted_utxo: self.weighted_utxo@,
            fee: self.fee,
            effective_value: self.effective_value,
        }
    }
}

/// The fee and effective value stored in the group are the ones the fee
/// rate gives for its UTXO.
pub open spec fn og_wf(og: OutputGroupV, fee_rate: u64) -> bool {
    &&& og.fee == spec_input_fee(fee_rate, og.weighted_utxo.satisfaction_weight)
    &&& og.effective_value == effective_value_of(fee_rate, og.weighted_utxo)
    &&& og.weighted_utxo.value() <= i64::MAX
}

impl OutputGroup {
    /// Annotate a weighted UTXO with its spending fee and effective value at
    /// `fee_rate`.
    pub fn new(weighted_utxo: WeightedUtxo, fee_rate: u64) -> (r: OutputGroup)
        requires
            input_fee_fits(fee_rate, weighted_utxo@.satisfaction_weight),
            spec_input_fee(fee_rate, weighted_utxo@.satisfaction_weight) <= i64::MAX,
            weighted_utxo@.value() <= i64::MAX,
        ensures
            r@.weighted_utxo == weighted_utxo@,
            og_wf(r@, fee_rate),
    {
        let fee = input_fee(fee_rate, weighted_utxo.satisfaction_weight);
        let effective_value = (weighted_utxo.utxo.txout().value as i64) - (fee as i64);
        OutputGroup { weighted_utxo, fee, effective_value }
    }

    /// Copy this output group.
    pub fn copied(&self) -> (r: OutputGroup)
        ensures
            r@ == self@,
    {
        OutputGroup {
            weighted_utxo: self.weighted_utxo.copied(),
            fee: self.fee,
            effective_value: self.effective_value,
        }
    }
}

/// The views of a sequence of output groups.
pub open spec fn og_views(s: Seq<OutputGroup>) -> Seq<OutputGroupV> {
    s.map_values(|og: OutputGroup| og@)
}

/// The views of a sequence of groups of output groups.
pub open spec fn ogg_views(s: Seq<Vec<OutputGroup>>) -> Seq<Seq<OutputGroupV>> {
    s.map_values(|g: Vec<OutputGroup>| og_views(g@))
}

/// The UTXOs the output groups carry.
pub open spec fn og_wus(s: Seq<OutputGroupV>) -> Seq<WeightedUtxoV> {
    s.map_values(|og: OutputGroupV| og.weighted_utxo)
}

/// Every group member carries its fee-rate-consistent annotations.
pub open spec fn ogs_wf(gs: Seq<Seq<OutputGroupV>>, fee_rate: u64) -> bool {
    forall|k: int, m: int| 0 <= k < gs.len() && 0 <= m < gs[k].len() ==> og_wf(
        #[trigger] gs[k][m],
        fee_rate,
    )
}

/// Sum of the effective values of a group.
pub open spec fn geff(g: Seq<OutputGroupV>) -> int {
    seq_sum(g, |og: OutputGroupV| og.effective_value as int)
}

/// Sum of the effective values of the groups from index `from` on.
pub open spec fn suffix_eff(gs: Seq<Seq<OutputGroupV>>, from: int) -> int
    decreases gs.len() - from,
{
    if from < 0 || from >= gs.len() {
        0
    } else {
        geff(gs[from]) + suffix_eff(gs, from + 1)
    }
}

/// Sum of the effective values of the groups before index `n`.
pub open spec fn prefix_eff(gs: Seq<Seq<OutputGroupV>>, n: int) -> int
    decreases n,
{
    if n <= 0 || n > gs.len() {
        0
    } else {
        prefix_eff(gs, n - 1) + geff(gs[n - 1])
    }
}

/// Sum of the effective values of the groups selected by `sel`.
pub open spec fn sel_eff(gs: Seq<Seq<OutputGroupV>>, sel: Seq<bool>) -> int
    decreases sel.len(),
{
    if sel.len() == 0 || sel.len() > gs.len() {
        0
    } else {
        sel_eff(gs, sel.drop_last()) + if sel.last() {
            geff(gs[sel.len() - 1])
        } else {
            0
        }
    }
}

/// The groups selected by `sel`, in order.
pub open spec fn picked_groups(gs: Seq<Seq<OutputGroupV>>, sel: Seq<bool>) -> Seq<Seq<
    OutputGroupV,
>>
    decreases sel.len(),
{
    if sel.len() == 0 || sel.len() > gs.len() {
        Seq::empty()
    } else {
        picked_groups(gs, sel.drop_last()) + if sel.last() {
            seq![gs[sel.len() - 1]]
        } else {
            Seq::empty()
        }
    }
}

/// A full decision vector agrees with the partial selection on every
/// decided position: it lies in the subtree the search is currently under.
pub open spec fn extends_sel(v: Seq<bool>, sel: Seq<bool>) -> bool {
    v.len() >= sel.len() && v.take(sel.len() as int) == sel
}

/// The search visits `v` only after the whole subtree under `sel`: at some
/// decided position the selection includes a group that `v` excludes, and
/// they agree before it.
pub open spec fn comes_after(v: Seq<bool>, sel: Seq<bool>) -> bool {
    exists|i: int|
        #![trigger sel[i], v[i]]
        0 <= i < sel.len() && i < v.len() && sel[i] && !v[i] && v.take(i) == sel.take(i)
}

/// The decision vector lands in the tolerance window.
pub open spec fn v_in_window(
    gs: Seq<Seq<OutputGroupV>>,
    init: int,
    target_amount: int,
    cost_of_change: int,
    v: Seq<bool>,
) -> bool {
    target_amount <= init + sel_eff(gs, v) <= target_amount + cost_of_change
}

/// A recorded best selection is at least as tight as `v`.
pub open spec fn v_dominated(
    gs: Seq<Seq<OutputGroupV>>,
    init: int,
    best_value: Option<i64>,
    v: Seq<bool>,
) -> bool {
    best_value matches Some(bv) && bv <= init + sel_eff(gs, v)
}

/// No selection of optional groups lands in the tolerance window on top of
/// the required groups' effective value.
pub open spec fn bnb_no_window(
    req: Seq<Seq<OutputGroupV>>,
    opt: Seq<Seq<OutputGroupV>>,
    target_amount: int,
    cost_of_change: int,
) -> bool {
    forall|picked: Seq<Seq<OutputGroupV>>| #[trigger] picked.to_multiset().subset_of(
        opt.to_multiset(),
    ) ==> !(target_amount <= suffix_eff(req, 0) + seq_sum(
        picked,
        |g: Seq<OutputGroupV>| geff(g),
    ) <= target_amount + cost_of_change)
}

/// With non-negative group values, deciding more groups can only move the
/// selection's value up, and never past what remains available.
proof fn lemma_sel_eff_extends(gs: Seq<Seq<OutputGroupV>>, sel: Seq<bool>, v: Seq<bool>)
    requires
        forall|k: int| 0 <= k < gs.len() ==> #[trigger] geff(gs[k]) >= 0,
        extends_sel(v, sel),
        v.len() <= gs.len(),
        sel.len() <= gs.len(),
    ensures
        sel_eff(gs, sel) <= sel_eff(gs, v),
        sel_eff(gs, v) <= sel_eff(gs, sel) + suffix_eff(gs, sel.len() as int) - suffix_eff(
            gs,
            v.len() as int,
        ),
    decreases v.len(),
{
    if v.len() == sel.len() {
        assert(v =~= sel);
    } else {
        assert(v.drop_last().take(sel.len() as int) =~= v.take(sel.len() as int));
        lemma_sel_eff_extends(gs, sel, v.drop_last());
        lemma_suffix_unfold(gs, v.len() - 1);
        assert(geff(gs[v.len() - 1]) >= 0);
    }
}

/// Reading only decided positions, a shorter group list gives the same
/// picked groups.
proof fn lemma_picked_prefix(gs: Seq<Seq<OutputGroupV>>, sel: Seq<bool>)
    requires
        sel.len() < gs.len(),
    ensures
        picked_groups(gs, sel) == picked_groups(gs.drop_last(), sel),
    decreases sel.len(),
{
    if sel.len() == 0 {
        assert(picked_groups(gs, sel) =~= picked_groups(gs.drop_last(), sel));
    } else {
        lemma_picked_prefix(gs, sel.drop_last());
        assert(gs.drop_last()[sel.len() - 1] == gs[sel.len() - 1]);
    }
}

/// Any sub-multiset of the groups is picked by some full decision vector.
proof fn lemma_submultiset_picks(gs: Seq<Seq<OutputGroupV>>, s: Seq<Seq<OutputGroupV>>)
    requires
        s.to_multiset().subset_of(gs.to_multiset()),
    ensures
        exists|v: Seq<bool>|
            v.len() == gs.len() && (#[trigger] picked_groups(gs, v)).to_multiset()
                == s.to_multiset(),
    decreases gs.len(),
{
    broadcast use vstd::multiset::group_multiset_axioms;

    to_multiset_len(gs);
    to_multiset_len(s);
    if gs.len() == 0 {
        let v = Seq::<bool>::empty();
        assert(picked_groups(gs, v).to_multiset() =~= s.to_multiset()) by {
            to_multiset_len(picked_groups(gs, v));
            assert forall|y: Seq<OutputGroupV>| picked_groups(gs, v).to_multiset().count(y)
                == s.to_multiset().count(y) by {
                to_multiset_contains(picked_groups(gs, v), y);
                to_multiset_contains(s, y);
            }
        }
        assert(v.len() == gs.len() && picked_groups(gs, v).to_multiset() == s.to_multiset());
    } else {
        let x = gs.last();
        let n = gs.len() - 1;
        to_multiset_remove(gs, n);
        assert(gs.remove(n) =~= gs.drop_last());
        if s.to_multiset().count(x) > 0 {
            to_multiset_contains(s, x);
            assert(s.contains(x));
            let j = choose|j: int| 0 <= j < s.len() && s[j] == x;
            to_multiset_remove(s, j);
            assert(s.remove(j).to_multiset().subset_of(gs.drop_last().to_multiset())) by {
                assert forall|y: Seq<OutputGroupV>| s.remove(j).to_multiset().count(y)
                    <= gs.drop_last().to_multiset().count(y) by {
                    assert(s.to_multiset().count(y) <= gs.to_multiset().count(y));
                }
            }
            lemma_submultiset_picks(gs.drop_last(), s.remove(j));
            let v0 = choose|v0: Seq<bool>|
                v0.len() == gs.drop_last().len() && (#[trigger] picked_groups(
                    gs.drop_last(),
                    v0,
                )).to_multiset() == s.remove(j).to_multiset();
            let v = v0.push(true);
            lemma_picked_prefix(gs, v0);
            assert(v.drop_last() =~= v0);
            assert(picked_groups(gs, v) == picked_groups(gs, v0) + seq![x]);
            lemma_multiset_commutative(picked_groups(gs, v0), seq![x]);
            assert(seq![x] =~= Seq::<Seq<OutputGroupV>>::empty().push(x));
            vstd::seq_lib::to_multiset_build(Seq::<Seq<OutputGroupV>>::empty(), x);
            to_multiset_len(Seq::<Seq<OutputGroupV>>::empty());
            vstd::multiset::lemma_multiset_empty_len(Seq::<Seq<
                OutputGroupV,
            >>::empty().to_multiset());
            assert(picked_groups(gs, v).to_multiset() =~= s.to_multiset());
            assert(v.len() == gs.len() && picked_groups(gs, v).to_multiset()
                == s.to_multiset());
        } else {
            assert(s.to_multiset().subset_of(gs.drop_last().to_multiset())) by {
                assert forall|y: Seq<OutputGroupV>| s.to_multiset().count(y)
                    <= gs.drop_last().to_multiset().count(y) by {
                    assert(s.to_multiset().count(y) <= gs.to_multiset().count(y));
                }
            }
            lemma_submultiset_picks(gs.drop_last(), s);
            let v0 = choose|v0: Seq<bool>|
                v0.len() == gs.drop_last().len() && (#[trigger] picked_groups(
                    gs.drop_last(),
                    v0,
                )).to_multiset() == s.to_multiset();
            let v = v0.push(false);
            lemma_picked_prefix(gs, v0);
            assert(v.drop_last() =~= v0);
            assert(picked_groups(gs, v) == picked_groups(gs, v0) + Seq::<Seq<
                OutputGroupV,
            >>::empty());
            assert(picked_groups(gs, v0) + Seq::<Seq<OutputGroupV>>::empty() =~= picked_groups(
                gs,
                v0,
            ));
            assert(v.len() == gs.len() && picked_groups(gs, v).to_multiset()
                == s.to_multiset());
        }
    }
}

/// Every group of a rearrangement keeps its positive members positive.
proof fn lemma_ogs_pos_multiset(a: Seq<Seq<OutputGroupV>>, b: Seq<Seq<OutputGroupV>>)
    requires
        a.to_multiset() == b.to_multiset(),
        forall|k: int, m: int| 0 <= k < b.len() && 0 <= m < b[k].len() ==> (#[trigger]
        b[k][m]).effective_value > 0,
    ensures
        forall|k: int, m: int| 0 <= k < a.len() && 0 <= m < a[k].len() ==> (#[trigger]
        a[k][m]).effective_value > 0,
{
    broadcast use vstd::multiset::group_multiset_axioms;

    assert forall|k: int, m: int| 0 <= k < a.len() && 0 <= m < a[k].len() implies (#[trigger]
    a[k][m]).effective_value > 0 by {
        to_multiset_contains(a, a[k]);
        to_multiset_contains(b, a[k]);
        assert(a.contains(a[k]));
        assert(b.contains(a[k]));
        let j = choose|j: int| 0 <= j < b.len() && b[j] == a[k];
        assert(b[j][m].effective_value > 0);
    }
}

pub proof fn lemma_prefix_suffix_eff(gs: Seq<Seq<OutputGroupV>>, n: int)
    requires
        0 <= n <= gs.len(),
    ensures
        prefix_eff(gs, n) + suffix_eff(gs, n) == suffix_eff(gs, 0),
    decreases n,
{
    if n > 0 {
        lemma_prefix_suffix_eff(gs, n - 1);
        lemma_suffix_unfold(gs, n - 1);
    }
}

pub proof fn lemma_suffix_unfold(gs: Seq<Seq<OutputGroupV>>, k: int)
    requires
        0 <= k < gs.len(),
    ensures
        suffix_eff(gs, k) == geff(gs[k]) + suffix_eff(gs, k + 1),
{
}

proof fn lemma_prefix_nonneg(gs: Seq<Seq<OutputGroupV>>, n: int)
    requires
        forall|k: int| 0 <= k < gs.len() ==> #[trigger] geff(gs[k]) >= 0,
    ensures
        prefix_eff(gs, n) >= 0,
    decreases n,
{
    if 0 < n <= gs.len() {
        lemma_prefix_nonneg(gs, n - 1);
    }
}

proof fn lemma_suffix_nonneg(gs: Seq<Seq<OutputGroupV>>, n: int)
    requires
        forall|k: int| 0 <= k < gs.len() ==> #[trigger] geff(gs[k]) >= 0,
    ensures
        suffix_eff(gs, n) >= 0,
    decreases gs.len() - n,
{
    if 0 <= n < gs.len() {
        lemma_suffix_nonneg(gs, n + 1);
    }
}

/// A selection's effective value lies between zero and the effective value
/// of all groups it may draw from.
pub proof fn lemma_sel_eff_bounds(gs: Seq<Seq<OutputGroupV>>, sel: Seq<bool>)
    requires
        sel.len() <= gs.len(),
    ensures
        sel_eff(gs, sel) == seq_sum(picked_groups(gs, sel), |g: Seq<OutputGroupV>| geff(g)),
        picked_groups(gs, sel).to_multiset().subset_of(gs.to_multiset()),
    decreases sel.len(),
{
    broadcast use vstd::multiset::group_multiset_axioms;

    let fg = |g: Seq<OutputGroupV>| geff(g);
    if sel.len() == 0 {
        to_multiset_len(picked_groups(gs, sel));
        to_multiset_len(gs);
    } else {
        lemma_sel_eff_bounds(gs, sel.drop_last());
        let prev = picked_groups(gs, sel.drop_last());
        if sel.last() {
            lemma_seq_sum_concat(prev, seq![gs[sel.len() - 1]], fg);
            crate::sums::lemma_seq_sum_singleton(gs[sel.len() - 1], fg);
            lemma_multiset_commutative(prev, seq![gs[sel.len() - 1]]);
            assert(seq![gs[sel.len() - 1]].to_multiset() =~= Multiset::empty().insert(
                gs[sel.len() - 1],
            )) by {
                assert(seq![gs[sel.len() - 1]] =~= Seq::<Seq<OutputGroupV>>::empty().push(
                    gs[sel.len() - 1],
                ));
                vstd::seq_lib::to_multiset_build(
                    Seq::<Seq<OutputGroupV>>::empty(),
                    gs[sel.len() - 1],
                );
                to_multiset_len(Seq::<Seq<OutputGroupV>>::empty());
                vstd::multiset::lemma_multiset_empty_len(Seq::<Seq<
                    OutputGroupV,
                >>::empty().to_multiset());
            }
            assert(gs.to_multiset().count(gs[sel.len() - 1]) > 0) by {
                to_multiset_contains(gs, gs[sel.len() - 1]);
            }
            assert(picked_groups(gs, sel).to_multiset().subset_of(gs.to_multiset())) by {
                let n = sel.len() - 1;
                assert forall|y: Seq<OutputGroupV>| picked_groups(gs, sel).to_multiset().count(
                    y,
                ) <= gs.to_multiset().count(y) by {
                    if y == gs[n] {
                        lemma_picked_count(gs, sel.drop_last(), y);
                        assert(gs =~= gs.take(n) + gs.skip(n));
                        lemma_multiset_commutative(gs.take(n), gs.skip(n));
                        assert(gs.skip(n)[0] == gs[n]);
                        to_multiset_contains(gs.skip(n), y);
                        assert(gs.skip(n).contains(y)) by {
                            assert(gs.skip(n)[0] == y);
                        }
                        assert(gs.take(n).to_multiset().count(y) + gs.skip(
                            n,
                        ).to_multiset().count(y) == gs.to_multiset().count(y));
                    }
                }
            }
        } else {
            assert(picked_groups(gs, sel) + Seq::<Seq<OutputGroupV>>::empty() =~= picked_groups(
                gs,
                sel,
            ));
            assert(picked_groups(gs, sel) =~= prev);
        }
    }
}

/// A group appears among the picked groups at most as often as it appears
/// among the first `sel.len()` groups.
proof fn lemma_picked_count(gs: Seq<Seq<OutputGroupV>>, sel: Seq<bool>, y: Seq<OutputGroupV>)
    requires
        sel.len() <= gs.len(),
    ensures
        picked_groups(gs, sel).to_multiset().count(y) <= gs.take(
            sel.len() as int,
        ).to_multiset().count(y),
    decreases sel.len(),
{
    broadcast use vstd::multiset::group_multiset_axioms;

    if sel.len() == 0 {
        to_multiset_len(picked_groups(gs, sel));
        assert(picked_groups(gs, sel).to_multiset().count(y) == 0) by {
            to_multiset_contains(picked_groups(gs, sel), y);
        }
    } else {
        lemma_picked_count(gs, sel.drop_last(), y);
        let n = sel.len() - 1;
        assert(gs.take(n + 1) =~= gs.take(n).push(gs[n]));
        vstd::seq_lib::to_multiset_build(gs.take(n), gs[n]);
        let prev = picked_groups(gs, sel.drop_last());
        if sel.last() {
            lemma_multiset_commutative(prev, seq![gs[n]]);
            assert(seq![gs[n]] =~= Seq::<Seq<OutputGroupV>>::empty().push(gs[n]));
            vstd::seq_lib::to_multiset_build(Seq::<Seq<OutputGroupV>>::empty(), gs[n]);
            to_multiset_len(Seq::<Seq<OutputGroupV>>::empty());
            vstd::multiset::lemma_multiset_empty_len(Seq::<Seq<
                OutputGroupV,
            >>::empty().to_multiset());
        } else {
            assert(picked_groups(gs, sel) =~= prev);
        }
    }
}


/// The effective-value contribution of an output group.
pub open spec fn eff_of(og: OutputGroupV) -> int {
    og.effective_value as int
}

/// The magnitude bound of an output group's contribution.
pub open spec fn abs_eff_of(og: OutputGroupV) -> int {
    if og.effective_value >= 0 {
        og.effective_value as int
    } else {
        -(og.effective_value as int)
    }
}

/// Sum of effective-value magnitudes of a group.
pub open spec fn abs_geff(g: Seq<OutputGroupV>) -> int {
    seq_sum(g, |og: OutputGroupV| abs_eff_of(og))
}

/// Sum of effective-value magnitudes of the groups from `from` on.
pub open spec fn suffix_abs(gs: Seq<Seq<OutputGroupV>>, from: int) -> int
    decreases gs.len() - from,
{
    if from < 0 || from >= gs.len() {
        0
    } else {
        abs_geff(gs[from]) + suffix_abs(gs, from + 1)
    }
}

/// Sum of effective-value magnitudes of the groups before `n`.
pub open spec fn prefix_abs(gs: Seq<Seq<OutputGroupV>>, n: int) -> int
    decreases n,
{
    if n <= 0 || n > gs.len() {
        0
    } else {
        prefix_abs(gs, n - 1) + abs_geff(gs[n - 1])
    }
}

/// The basic facts about the magnitude sums: they are non-negative, they
/// bound the signed sums, and prefix plus suffix give the total.
pub proof fn lemma_abs_structure(gs: Seq<Seq<OutputGroupV>>)
    ensures
        forall|k: int| 0 <= k < gs.len() ==> #[trigger] abs_geff(gs[k]) >= 0,
        forall|k: int| 0 <= k < gs.len() ==> -abs_geff(gs[k]) <= #[trigger] geff(gs[k])
            <= abs_geff(gs[k]),
        forall|n: int| #[trigger] suffix_abs(gs, n) >= 0,
        forall|n: int| 0 <= n <= gs.len() ==> #[trigger] prefix_abs(gs, n) >= 0,
        forall|n: int| 0 <= n <= gs.len() ==> prefix_abs(gs, n) + #[trigger] suffix_abs(gs, n)
            == suffix_abs(gs, 0),
        forall|n: int| -suffix_abs(gs, n) <= #[trigger] suffix_eff(gs, n) <= suffix_abs(gs, n),
        forall|k: int| 0 <= k < gs.len() ==> #[trigger] abs_geff(gs[k]) <= suffix_abs(gs, 0),
{
    assert forall|k: int| 0 <= k < gs.len() implies #[trigger] abs_geff(gs[k]) >= 0 by {
        let f = |og: OutputGroupV| abs_eff_of(og);
        assert forall|m: int| 0 <= m < gs[k].len() implies #[trigger] f(gs[k][m]) >= 0 by {}
        lemma_seq_sum_nonneg(gs[k], f);
    }
    assert forall|k: int| 0 <= k < gs.len() implies -abs_geff(gs[k]) <= #[trigger] geff(gs[k])
        <= abs_geff(gs[k]) by {
        let f = |og: OutputGroupV| og.effective_value as int;
        let g = |og: OutputGroupV| abs_eff_of(og);
        assert forall|m: int| 0 <= m < gs[k].len() implies -(#[trigger] g(gs[k][m])) <= f(
            gs[k][m],
        ) <= g(gs[k][m]) by {}
        crate::sums::lemma_seq_sum_abs_le(gs[k], f, g);
    }
    assert forall|n: int| #[trigger] suffix_abs(gs, n) >= 0 by {
        lemma_suffix_abs_nonneg(gs, n);
    }
    assert forall|n: int| 0 <= n <= gs.len() implies #[trigger] prefix_abs(gs, n) >= 0 by {
        lemma_prefix_abs_nonneg(gs, n);
    }
    assert forall|n: int| 0 <= n <= gs.len() implies prefix_abs(gs, n) + #[trigger] suffix_abs(
        gs,
        n,
    ) == suffix_abs(gs, 0) by {
        lemma_prefix_suffix_abs(gs, n);
    }
    assert forall|n: int| -suffix_abs(gs, n) <= #[trigger] suffix_eff(gs, n) <= suffix_abs(
        gs,
        n,
    ) by {
        lemma_suffix_eff_abs(gs, n);
    }
    assert forall|k: int| 0 <= k < gs.len() implies #[trigger] abs_geff(gs[k]) <= suffix_abs(
        gs,
        0,
    ) by {
        lemma_prefix_suffix_abs(gs, k);
        lemma_prefix_abs_nonneg(gs, k);
        lemma_suffix_abs_nonneg(gs, k + 1);
    }
}

proof fn lemma_suffix_abs_nonneg(gs: Seq<Seq<OutputGroupV>>, n: int)
    requires
        forall|k: int| 0 <= k < gs.len() ==> #[trigger] abs_geff(gs[k]) >= 0,
    ensures
        suffix_abs(gs, n) >= 0,
    decreases gs.len() - n,
{
    if 0 <= n < gs.len() {
        lemma_suffix_abs_nonneg(gs, n + 1);
    }
}

proof fn lemma_prefix_abs_nonneg(gs: Seq<Seq<OutputGroupV>>, n: int)
    requires
        forall|k: int| 0 <= k < gs.len() ==> #[trigger] abs_geff(gs[k]) >= 0,
    ensures
        prefix_abs(gs, n) >= 0,
    decreases n,
{
    if 0 < n <= gs.len() {
        lemma_prefix_abs_nonneg(gs, n - 1);
    }
}

proof fn lemma_prefix_suffix_abs(gs: Seq<Seq<OutputGroupV>>, n: int)
    requires
        0 <= n <= gs.len(),
    ensures
        prefix_abs(gs, n) + suffix_abs(gs, n) == suffix_abs(gs, 0),
    decreases n,
{
    if n > 0 {
        lemma_prefix_suffix_abs(gs, n - 1);
    }
}

proof fn lemma_suffix_eff_abs(gs: Seq<Seq<OutputGroupV>>, n: int)
    requires
        forall|k: int| 0 <= k < gs.len() ==> -abs_geff(gs[k]) <= #[trigger] geff(gs[k])
            <= abs_geff(gs[k]),
    ensures
        -suffix_abs(gs, n) <= suffix_eff(gs, n) <= suffix_abs(gs, n),
    decreases gs.len() - n,
{
    if 0 <= n < gs.len() {
        lemma_suffix_eff_abs(gs, n + 1);
    }
}

/// A selection's effective value is bounded in magnitude by the prefix it
/// was drawn from.
pub proof fn lemma_sel_eff_abs(gs: Seq<Seq<OutputGroupV>>, sel: Seq<bool>)
    requires
        sel.len() <= gs.len(),
        forall|k: int| 0 <= k < gs.len() ==> -abs_geff(gs[k]) <= #[trigger] geff(gs[k])
            <= abs_geff(gs[k]),
        forall|k: int| 0 <= k < gs.len() ==> #[trigger] abs_geff(gs[k]) >= 0,
    ensures
        -prefix_abs(gs, sel.len() as int) <= sel_eff(gs, sel) <= prefix_abs(
            gs,
            sel.len() as int,
        ),
    decreases sel.len(),
{
    if sel.len() > 0 {
        lemma_sel_eff_abs(gs, sel.drop_last());
    }
}

/// For well-formed groups, the magnitude total is bounded by value plus fee
/// of the UTXOs they hold.
pub proof fn lemma_abs_le_value_fee(g: Seq<OutputGroupV>, fee_rate: u64)
    requires
        forall|m: int| 0 <= m < g.len() ==> og_wf(#[trigger] g[m], fee_rate),
    ensures
        abs_geff(g) <= sum_value(og_wus(g)) + sum_fee(og_wus(g), fee_rate),
        geff(g) == sum_value(og_wus(g)) - sum_fee(og_wus(g), fee_rate),
    decreases g.len(),
{
    let fv = |og: OutputGroupV| value_of(og.weighted_utxo);
    let ff = |og: OutputGroupV| fee_of(fee_rate)(og.weighted_utxo);
    crate::sums::lemma_seq_sum_map(
        g,
        |og: OutputGroupV| og.weighted_utxo,
        |w: WeightedUtxoV| value_of(w),
        fv,
    );
    crate::sums::lemma_seq_sum_map(
        g,
        |og: OutputGroupV| og.weighted_utxo,
        fee_of(fee_rate),
        ff,
    );
    lemma_abs_le_value_fee_inner(g, fee_rate, fv, ff);
}

proof fn lemma_abs_le_value_fee_inner(
    g: Seq<OutputGroupV>,
    fee_rate: u64,
    fv: spec_fn(OutputGroupV) -> int,
    ff: spec_fn(OutputGroupV) -> int,
)
    requires
        forall|m: int| 0 <= m < g.len() ==> og_wf(#[trigger] g[m], fee_rate),
        fv == (|og: OutputGroupV| value_of(og.weighted_utxo)),
        ff == (|og: OutputGroupV| fee_of(fee_rate)(og.weighted_utxo)),
    ensures
        abs_geff(g) <= seq_sum(g, fv) + seq_sum(g, ff),
        geff(g) == seq_sum(g, fv) - seq_sum(g, ff),
    decreases g.len(),
{
    if g.len() > 0 {
        lemma_abs_le_value_fee_inner(g.drop_last(), fee_rate, fv, ff);
        assert(og_wf(g.last(), fee_rate));
        crate::fees::lemma_fee_nonneg(fee_rate, g.last().weighted_utxo.satisfaction_weight);
    }
}



/// The UTXOs carried by all the groups together.
pub open spec fn flat_wus(gs: Seq<Seq<OutputGroupV>>) -> Seq<WeightedUtxoV> {
    og_wus(gs.flatten())
}

/// The machine bounds one UTXO must respect to become an output group.
pub open spec fn wu_ok(w: WeightedUtxoV, fee_rate: u64) -> bool {
    &&& input_fee_fits(fee_rate, w.satisfaction_weight)
    &&& spec_input_fee(fee_rate, w.satisfaction_weight) <= i64::MAX
    &&& w.value() <= i64::MAX
}

/// A suffix sum of group effective values is the sum of the group function
/// over the remaining groups.
pub proof fn lemma_suffix_eff_is_sum(gs: Seq<Seq<OutputGroupV>>, from: int)
    requires
        0 <= from <= gs.len(),
    ensures
        suffix_eff(gs, from) == seq_sum(gs.skip(from), |g: Seq<OutputGroupV>| geff(g)),
        suffix_abs(gs, from) == seq_sum(gs.skip(from), |g: Seq<OutputGroupV>| abs_geff(g)),
    decreases gs.len() - from,
{
    let fe = |g: Seq<OutputGroupV>| geff(g);
    let fa = |g: Seq<OutputGroupV>| abs_geff(g);
    if from == gs.len() {
        assert(gs.skip(from) =~= Seq::<Seq<OutputGroupV>>::empty());
    } else {
        lemma_suffix_eff_is_sum(gs, from + 1);
        assert(gs.skip(from) =~= seq![gs[from]] + gs.skip(from + 1));
        lemma_seq_sum_concat(seq![gs[from]], gs.skip(from + 1), fe);
        lemma_seq_sum_concat(seq![gs[from]], gs.skip(from + 1), fa);
        crate::sums::lemma_seq_sum_singleton(gs[from], fe);
        crate::sums::lemma_seq_sum_singleton(gs[from], fa);
    }
}

/// Totals of well-formed groups against the values and fees of the UTXOs
/// they carry.
pub proof fn lemma_group_totals(gs: Seq<Seq<OutputGroupV>>, fee_rate: u64)
    requires
        ogs_wf(gs, fee_rate),
    ensures
        suffix_eff(gs, 0) == sum_value(flat_wus(gs)) - sum_fee(flat_wus(gs), fee_rate),
        suffix_abs(gs, 0) <= sum_value(flat_wus(gs)) + sum_fee(flat_wus(gs), fee_rate),
{
    let fe = |og: OutputGroupV| og.effective_value as int;
    let fa = |og: OutputGroupV| abs_eff_of(og);
    let fge = |g: Seq<OutputGroupV>| geff(g);
    let fga = |g: Seq<OutputGroupV>| abs_geff(g);
    lemma_suffix_eff_is_sum(gs, 0);
    assert(gs.skip(0) =~= gs);
    crate::sums::lemma_seq_sum_flatten(gs, fe, fge);
    crate::sums::lemma_seq_sum_flatten(gs, fa, fga);
    assert forall|m: int| 0 <= m < gs.flatten().len() implies og_wf(
        #[trigger] gs.flatten()[m],
        fee_rate,
    ) by {
        lemma_flatten_index_wf(gs, m, fee_rate);
    }
    lemma_abs_le_value_fee(gs.flatten(), fee_rate);
}

/// Every member of the flattening comes out of one of the groups.
proof fn lemma_flatten_index_wf(gs: Seq<Seq<OutputGroupV>>, m: int, fee_rate: u64)
    requires
        ogs_wf(gs, fee_rate),
        0 <= m < gs.flatten().len(),
    ensures
        og_wf(gs.flatten()[m], fee_rate),
    decreases gs.len(),
{
    if gs.len() > 0 {
        assert(gs.flatten() == gs.first() + gs.drop_first().flatten());
        if m < gs.first().len() {
            assert(gs.flatten()[m] == gs[0][m]);
        } else {
            assert(gs.flatten()[m] == gs.drop_first().flatten()[m - gs.first().len()]);
            assert forall|k: int, n: int|
                0 <= k < gs.drop_first().len() && 0 <= n < gs.drop_first()[k].len() implies og_wf(
                #[trigger] gs.drop_first()[k][n],
                fee_rate,
            ) by {
                assert(gs.drop_first()[k] == gs[k + 1]);
            }
            lemma_flatten_index_wf(gs.drop_first(), m - gs.first().len(), fee_rate);
        }
    }
}

/// The members of `g` whose effective value at `fee_rate` is positive, in
/// order.
pub open spec fn spec_filter_pos(g: Seq<WeightedUtxoV>, fee_rate: u64) -> Seq<WeightedUtxoV>
    decreases g.len(),
{
    if g.len() == 0 {
        Seq::empty()
    } else {
        let prev = spec_filter_pos(g.drop_last(), fee_rate);
        if effective_value_of(fee_rate, g.last()) > 0 {
            prev.push(g.last())
        } else {
            prev
        }
    }
}

/// Filtering keeps a sub-multiset and can only raise the effective total.
pub proof fn lemma_filter_pos(g: Seq<WeightedUtxoV>, fee_rate: u64)
    ensures
        spec_filter_pos(g, fee_rate).to_multiset().subset_of(g.to_multiset()),
        seq_sum(spec_filter_pos(g, fee_rate), crate::fees::eff_of_rate(fee_rate)) >= seq_sum(
            g,
            crate::fees::eff_of_rate(fee_rate),
        ),
        forall|m: int| 0 <= m < spec_filter_pos(g, fee_rate).len() ==> effective_value_of(
            fee_rate,
            #[trigger] spec_filter_pos(g, fee_rate)[m],
        ) > 0,
    decreases g.len(),
{
    broadcast use vstd::multiset::group_multiset_axioms;

    let fw = crate::fees::eff_of_rate(fee_rate);
    if g.len() == 0 {
        to_multiset_len(spec_filter_pos(g, fee_rate));
        assert forall|y: WeightedUtxoV| spec_filter_pos(g, fee_rate).to_multiset().count(y)
            <= g.to_multiset().count(y) by {
            to_multiset_contains(spec_filter_pos(g, fee_rate), y);
        }
    } else {
        lemma_filter_pos(g.drop_last(), fee_rate);
        let prev = spec_filter_pos(g.drop_last(), fee_rate);
        assert(g =~= g.drop_last().push(g.last()));
        vstd::seq_lib::to_multiset_build(g.drop_last(), g.last());
        if effective_value_of(fee_rate, g.last()) > 0 {
            vstd::seq_lib::to_multiset_build(prev, g.last());
            lemma_seq_sum_push(prev, g.last(), fw);
            assert forall|m: int| 0 <= m < prev.push(g.last()).len() implies effective_value_of(
                fee_rate,
                #[trigger] prev.push(g.last())[m],
            ) > 0 by {
                if m < prev.len() {
                    assert(prev.push(g.last())[m] == prev[m]);
                }
            }
        }
    }
}

/// Filtering distributes over concatenation.
proof fn lemma_filter_pos_concat(a: Seq<WeightedUtxoV>, b: Seq<WeightedUtxoV>, fee_rate: u64)
    ensures
        spec_filter_pos(a + b, fee_rate) == spec_filter_pos(a, fee_rate) + spec_filter_pos(
            b,
            fee_rate,
        ),
    decreases b.len(),
{
    if b.len() == 0 {
        assert(a + b =~= a);
        assert(spec_filter_pos(a, fee_rate) + spec_filter_pos(b, fee_rate) =~= spec_filter_pos(
            a,
            fee_rate,
        ));
    } else {
        assert((a + b).drop_last() =~= a + b.drop_last());
        assert((a + b).last() == b.last());
        lemma_filter_pos_concat(a, b.drop_last(), fee_rate);
        if effective_value_of(fee_rate, b.last()) > 0 {
            assert((spec_filter_pos(a, fee_rate) + spec_filter_pos(b.drop_last(), fee_rate)).push(
                b.last(),
            ) =~= spec_filter_pos(a, fee_rate) + spec_filter_pos(b.drop_last(), fee_rate).push(
                b.last(),
            ));
        }
    }
}

/// Filtering each group and flattening is filtering the flattening.
proof fn lemma_filter_pos_flatten(gs: Seq<Seq<WeightedUtxoV>>, fee_rate: u64)
    ensures
        gs.map_values(|g: Seq<WeightedUtxoV>| spec_filter_pos(g, fee_rate)).flatten()
            == spec_filter_pos(gs.flatten(), fee_rate),
    decreases gs.len(),
{
    let fm = |g: Seq<WeightedUtxoV>| spec_filter_pos(g, fee_rate);
    if gs.len() == 0 {
        assert(gs.map_values(fm).flatten() =~= spec_filter_pos(gs.flatten(), fee_rate));
    } else {
        lemma_filter_pos_flatten(gs.drop_first(), fee_rate);
        assert(gs.map_values(fm).drop_first() =~= gs.drop_first().map_values(fm));
        assert(gs.flatten() == gs.first() + gs.drop_first().flatten());
        assert(gs.map_values(fm).flatten() == spec_filter_pos(gs.first(), fee_rate)
            + gs.map_values(fm).drop_first().flatten());
        lemma_filter_pos_concat(gs.first(), gs.drop_first().flatten(), fee_rate);
    }
}

/// Filtering keeps the same members however the input is arranged.
proof fn lemma_filter_pos_multiset(a: Seq<WeightedUtxoV>, b: Seq<WeightedUtxoV>, fee_rate: u64)
    requires
        a.to_multiset() == b.to_multiset(),
    ensures
        spec_filter_pos(a, fee_rate).to_multiset() == spec_filter_pos(b, fee_rate).to_multiset(),
    decreases a.len(),
{
    broadcast use vstd::multiset::group_multiset_axioms;

    to_multiset_len(a);
    to_multiset_len(b);
    if a.len() == 0 {
        assert(spec_filter_pos(a, fee_rate).to_multiset() =~= spec_filter_pos(
            b,
            fee_rate,
        ).to_multiset());
    } else {
        let x = a.last();
        let i = a.len() - 1;
        to_multiset_contains(a, x);
        to_multiset_contains(b, x);
        assert(a.contains(x));
        assert(b.contains(x));
        let j = choose|j: int| 0 <= j < b.len() && b[j] == x;
        to_multiset_remove(a, i);
        to_multiset_remove(b, j);
        assert(a.remove(i) =~= a.drop_last());
        lemma_filter_pos_multiset(a.drop_last(), b.remove(j), fee_rate);
        // split off the matched occurrence on both sides
        assert(a =~= a.drop_last() + seq![x]);
        lemma_filter_pos_concat(a.drop_last(), seq![x], fee_rate);
        assert(b =~= (b.subrange(0, j) + seq![x]) + b.subrange(j + 1, b.len() as int));
        assert(b.remove(j) =~= b.subrange(0, j) + b.subrange(j + 1, b.len() as int));
        lemma_filter_pos_concat(b.subrange(0, j) + seq![x], b.subrange(j + 1, b.len() as int),
            fee_rate);
        lemma_filter_pos_concat(b.subrange(0, j), seq![x], fee_rate);
        lemma_filter_pos_concat(b.subrange(0, j), b.subrange(j + 1, b.len() as int), fee_rate);
        let fs = spec_filter_pos(seq![x], fee_rate);
        assert(seq![x].drop_last() =~= Seq::<WeightedUtxoV>::empty());
        lemma_multiset_commutative(spec_filter_pos(a.drop_last(), fee_rate), fs);
        lemma_multiset_commutative(
            spec_filter_pos(b.subrange(0, j), fee_rate) + fs,
            spec_filter_pos(b.subrange(j + 1, b.len() as int), fee_rate),
        );
        lemma_multiset_commutative(spec_filter_pos(b.subrange(0, j), fee_rate), fs);
        lemma_multiset_commutative(
            spec_filter_pos(b.subrange(0, j), fee_rate),
            spec_filter_pos(b.subrange(j + 1, b.len() as int), fee_rate),
        );
        assert(spec_filter_pos(a, fee_rate).to_multiset() =~= spec_filter_pos(
            b,
            fee_rate,
        ).to_multiset());
    }
}

/// What the branch-and-bound policy promises beyond the common guarantee.
///
/// When even the required UTXOs together with every optional UTXO of
/// positive effective value cannot reach the target, it fails, reporting as
/// needed the target plus the fees of exactly those UTXOs and as available
/// exactly their value. When the required UTXOs alone overshoot the target,
/// it succeeds selecting exactly the required UTXOs.
pub open spec fn bnb_select_post(
    p: crate::selection::CoinSelectionParamsV,
    r: Result<CoinSelectionResult, crate::selection::InsufficientFunds>,
) -> bool {
    let eff = crate::fees::eff_of_rate(p.fee_rate);
    let pos = spec_filter_pos(p.optional, p.fee_rate);
    let req_eff = seq_sum(p.required, eff);
    let avail_eff = seq_sum(pos, eff);
    &&& (req_eff + avail_eff < p.target_amount ==> (r matches Err(e) && e.needed
        == p.target_amount + sum_fee(p.required + pos, p.fee_rate) && e.available == sum_value(
        p.required + pos,
    )))
    &&& (req_eff + avail_eff >= p.target_amount && req_eff > p.target_amount ==> (r matches Ok(
        res,
    ) && res.chosen@.to_multiset() == p.required.to_multiset()))
}

/// Annotate grouped UTXOs with fees and effective values, keeping every
/// member.
pub fn build_output_groups(groups: Vec<Vec<WeightedUtxo>>, fee_rate: u64) -> (r: Vec<Vec<
    OutputGroup,
>>)
    requires
        forall|k: int, m: int|
            0 <= k < crate::grouping::group_views(groups@).len() && 0 <= m
                < crate::grouping::group_views(groups@)[k].len() ==> wu_ok(
                #[trigger] crate::grouping::group_views(groups@)[k][m],
                fee_rate,
            ),
    ensures
        ogg_views(r@).len() == groups@.len(),
        forall|k: int| 0 <= k < r@.len() ==> og_wus(#[trigger] ogg_views(r@)[k])
            == crate::grouping::group_views(groups@)[k],
        ogs_wf(ogg_views(r@), fee_rate),
{
    let ghost in_views = crate::grouping::group_views(groups@);
    let mut r: Vec<Vec<OutputGroup>> = Vec::new();
    let mut b: usize = 0;
    while b < groups.len()
        invariant
            0 <= b <= groups.len(),
            in_views == crate::grouping::group_views(groups@),
            forall|k: int, m: int|
                0 <= k < in_views.len() && 0 <= m < in_views[k].len() ==> wu_ok(
                    #[trigger] in_views[k][m],
                    fee_rate,
                ),
            r@.len() == b,
            forall|k: int| 0 <= k < r@.len() ==> og_wus(#[trigger] ogg_views(r@)[k])
                == in_views[k],
            forall|k: int, m: int|
                0 <= k < r@.len() && 0 <= m < ogg_views(r@)[k].len() ==> og_wf(
                    #[trigger] ogg_views(r@)[k][m],
                    fee_rate,
                ),
        decreases groups.len() - b,
    {
        let ghost gview = in_views[b as int];
        let mut og_group: Vec<OutputGroup> = Vec::new();
        let mut m: usize = 0;
        while m < groups[b].len()
            invariant
                0 <= m <= groups@[b as int]@.len(),
                0 <= b < groups@.len(),
                in_views == crate::grouping::group_views(groups@),
                gview == in_views[b as int],
                gview.len() == groups@[b as int]@.len(),
                forall|k: int, n: int|
                    0 <= k < in_views.len() && 0 <= n < in_views[k].len() ==> wu_ok(
                        #[trigger] in_views[k][n],
                        fee_rate,
                    ),
                og_wus(og_views(og_group@)) == gview.take(m as int),
                forall|n: int| 0 <= n < og_group@.len() ==> og_wf(
                    #[trigger] og_views(og_group@)[n],
                    fee_rate,
                ),
            decreases groups@[b as int]@.len() - m,
        {
            let w = groups[b][m].copied();
            proof {
                assert(w@ == gview[m as int]);
                assert(wu_ok(gview[m as int], fee_rate));
            }
            let ghost prev = og_group@;
            let og = OutputGroup::new(w, fee_rate);
            og_group.push(og);
            proof {
                assert forall|n: int| 0 <= n < og_group@.len() implies og_wf(
                    #[trigger] og_views(og_group@)[n],
                    fee_rate,
                ) by {
                    if n < prev.len() {
                        assert(og_group@[n] == prev[n]);
                        assert(og_views(og_group@)[n] == og_views(prev)[n]);
                    } else {
                        assert(og_group@[n] == og);
                    }
                }
                assert(og_wus(og_views(og_group@)) =~= gview.take(m + 1)) by {
                    assert(og_wus(og_views(prev)).len() == prev.len());
                    assert forall|n: int| 0 <= n < og_group@.len() implies og_wus(
                        og_views(og_group@),
                    )[n] == gview.take(m + 1)[n] by {
                        if n < prev.len() {
                            assert(og_group@[n] == prev[n]);
                            assert(og_wus(og_views(prev))[n] == gview.take(m as int)[n]);
                        } else {
                            assert(og_group@[n] == og);
                        }
                    }
                }
            }
            m = m + 1;
        }
        proof {
            assert(gview.take(gview.len() as int) =~= gview);
        }
        let ghost prev_r = r@;
        r.push(og_group);
        proof {
            assert forall|k: int| 0 <= k < r@.len() implies og_wus(#[trigger] ogg_views(r@)[k])
                == in_views[k] && (forall|m: int| 0 <= m < ogg_views(r@)[k].len() ==> og_wf(
                #[trigger] ogg_views(r@)[k][m],
                fee_rate,
            )) by {
                if k < prev_r.len() {
                    assert(r@[k] == prev_r[k]);
                    assert(ogg_views(r@)[k] == ogg_views(prev_r)[k]);
                } else {
                    assert(r@[k] == og_group);
                    assert(ogg_views(r@)[k] == og_views(og_group@));
                }
            }
        }
        b = b + 1;
    }
    r
}

/// Annotate grouped UTXOs with fees and effective values, dropping members
/// whose effective value is not positive.
pub fn build_filtered_output_groups(groups: Vec<Vec<WeightedUtxo>>, fee_rate: u64) -> (r: Vec<
    Vec<OutputGroup>,
>)
    requires
        forall|k: int, m: int|
            0 <= k < crate::grouping::group_views(groups@).len() && 0 <= m
                < crate::grouping::group_views(groups@)[k].len() ==> wu_ok(
                #[trigger] crate::grouping::group_views(groups@)[k][m],
                fee_rate,
            ),
    ensures
        ogg_views(r@).len() == groups@.len(),
        forall|k: int| 0 <= k < r@.len() ==> og_wus(#[trigger] ogg_views(r@)[k])
            == spec_filter_pos(crate::grouping::group_views(groups@)[k], fee_rate),
        ogs_wf(ogg_views(r@), fee_rate),
        forall|k: int, m: int|
            0 <= k < r@.len() && 0 <= m < ogg_views(r@)[k].len() ==> (#[trigger] ogg_views(
                r@,
            )[k][m]).effective_value > 0,
{
    let ghost in_views = crate::grouping::group_views(groups@);
    let mut r: Vec<Vec<OutputGroup>> = Vec::new();
    let mut b: usize = 0;
    while b < groups.len()
        invariant
            0 <= b <= groups.len(),
            in_views == crate::grouping::group_views(groups@),
            forall|k: int, m: int|
                0 <= k < in_views.len() && 0 <= m < in_views[k].len() ==> wu_ok(
                    #[trigger] in_views[k][m],
                    fee_rate,
                ),
            r@.len() == b,
            forall|k: int| 0 <= k < r@.len() ==> og_wus(#[trigger] ogg_views(r@)[k])
                == spec_filter_pos(in_views[k], fee_rate),
            forall|k: int, m: int|
                0 <= k < r@.len() && 0 <= m < ogg_views(r@)[k].len() ==> og_wf(
                    #[trigger] ogg_views(r@)[k][m],
                    fee_rate,
                ),
            forall|k: int, m: int|
                0 <= k < r@.len() && 0 <= m < ogg_views(r@)[k].len() ==> (#[trigger] ogg_views(
                    r@,
                )[k][m]).effective_value > 0,
        decreases groups.len() - b,
    {
        let ghost gview = in_views[b as int];
        let mut og_group: Vec<OutputGroup> = Vec::new();
        let mut m: usize = 0;
        while m < groups[b].len()
            invariant
                0 <= m <= groups@[b as int]@.len(),
                0 <= b < groups@.len(),
                in_views == crate::grouping::group_views(groups@),
                gview == in_views[b as int],
                gview.len() == groups@[b as int]@.len(),
                forall|k: int, n: int|
                    0 <= k < in_views.len() && 0 <= n < in_views[k].len() ==> wu_ok(
                        #[trigger] in_views[k][n],
                        fee_rate,
                    ),
                og_wus(og_views(og_group@)) == spec_filter_pos(gview.take(m as int), fee_rate),
                forall|n: int| 0 <= n < og_group@.len() ==> og_wf(
                    #[trigger] og_views(og_group@)[n],
                    fee_rate,
                ),
                forall|n: int| 0 <= n < og_group@.len() ==> (#[trigger] og_views(
                    og_group@,
                )[n]).effective_value > 0,
            decreases groups@[b as int]@.len() - m,
        {
            let w = groups[b][m].copied();
            proof {
                assert(w@ == gview[m as int]);
                assert(wu_ok(gview[m as int], fee_rate));
                assert(gview.take(m + 1).drop_last() =~= gview.take(m as int));
                assert(gview.take(m + 1).last() == gview[m as int]);
            }
            let ghost prev = og_group@;
            let og = OutputGroup::new(w, fee_rate);
            if og.effective_value > 0 {
                og_group.push(og);
                proof {
                    assert forall|n: int| 0 <= n < og_group@.len() implies og_wf(
                        #[trigger] og_views(og_group@)[n],
                        fee_rate,
                    ) && (#[trigger] og_views(og_group@)[n]).effective_value > 0 by {
                        if n < prev.len() {
                            assert(og_group@[n] == prev[n]);
                            assert(og_views(og_group@)[n] == og_views(prev)[n]);
                        } else {
                            assert(og_group@[n] == og);
                        }
                    }
                    assert(og_wus(og_views(og_group@)) =~= spec_filter_pos(
                        gview.take(m + 1),
                        fee_rate,
                    )) by {
                        assert(og_wus(og_views(prev)).len() == prev.len());
                        assert(spec_filter_pos(gview.take(m + 1), fee_rate)
                            == spec_filter_pos(gview.take(m as int), fee_rate).push(
                            gview[m as int],
                        ));
                        assert forall|n: int| 0 <= n < og_group@.len() implies og_wus(
                            og_views(og_group@),
                        )[n] == spec_filter_pos(gview.take(m + 1), fee_rate)[n] by {
                            if n < prev.len() {
                                assert(og_group@[n] == prev[n]);
                                assert(og_wus(og_views(prev))[n] == spec_filter_pos(
                                    gview.take(m as int),
                                    fee_rate,
                                )[n]);
                            } else {
                                assert(og_group@[n] == og);
                            }
                        }
                    }
                }
            } else {
                proof {
                    assert(spec_filter_pos(gview.take(m + 1), fee_rate) == spec_filter_pos(
                        gview.take(m as int),
                        fee_rate,
                    ));
                }
            }
            m = m + 1;
        }
        proof {
            assert(gview.take(gview.len() as int) =~= gview);
        }
        let ghost prev_r = r@;
        r.push(og_group);
        proof {
            assert forall|k: int| 0 <= k < r@.len() implies og_wus(#[trigger] ogg_views(r@)[k])
                == spec_filter_pos(in_views[k], fee_rate) && (forall|m: int|
                0 <= m < ogg_views(r@)[k].len() ==> og_wf(#[trigger] ogg_views(r@)[k][m], fee_rate)
                    && (ogg_views(r@)[k][m]).effective_value > 0) by {
                if k < prev_r.len() {
                    assert(r@[k] == prev_r[k]);
                    assert(ogg_views(r@)[k] == ogg_views(prev_r)[k]);
                } else {
                    assert(r@[k] == og_group);
                    assert(ogg_views(r@)[k] == og_views(og_group@));
                }
            }
        }
        b = b + 1;
    }
    r
}


/// Sum of a group's effective values.
fn group_eff(g: &Vec<OutputGroup>) -> (r: i64)
    requires
        abs_geff(og_views(g@)) <= i64::MAX,
    ensures
        r as int == geff(og_views(g@)),
{
    let ghost views = og_views(g@);
    let ghost fe = |og: OutputGroupV| og.effective_value as int;
    let ghost fa = |og: OutputGroupV| abs_eff_of(og);
    let mut total: i64 = 0;
    let mut m: usize = 0;
    while m < g.len()
        invariant
            0 <= m <= g.len(),
            views == og_views(g@),
            abs_geff(views) <= i64::MAX,
            fe == (|og: OutputGroupV| og.effective_value as int),
            fa == (|og: OutputGroupV| abs_eff_of(og)),
            total as int == seq_sum(views.take(m as int), fe),
        decreases g.len() - m,
    {
        proof {
            lemma_seq_sum_push(views.take(m as int), views[m as int], fe);
            lemma_seq_sum_push(views.take(m as int), views[m as int], fa);
            assert(views.take(m + 1) =~= views.take(m as int).push(views[m as int]));
            assert forall|i: int| 0 <= i < views.take(m + 1).len() implies -(#[trigger] fa(
                views.take(m + 1)[i],
            )) <= fe(views.take(m + 1)[i]) <= fa(views.take(m + 1)[i]) by {
                assert(views.take(m + 1)[i] == views[i]);
            }
            crate::sums::lemma_seq_sum_abs_le(views.take(m + 1), fe, fa);
            assert forall|i: int| 0 <= i < views.len() implies #[trigger] fa(views[i]) >= 0 by {}
            crate::sums::lemma_seq_sum_prefix_bound(views, m + 1, fa);
        }
        total = total + g[m].effective_value;
        m = m + 1;
    }
    proof {
        assert(views.take(views.len() as int) =~= views);
    }
    total
}

/// Tag every group with its effective value, shifted to be non-negative so
/// it can serve as an unsigned sort key.
fn keyed_by_eff(groups: Vec<Vec<OutputGroup>>) -> (r: Vec<(u128, Vec<OutputGroup>)>)
    requires
        forall|k: int| 0 <= k < groups@.len() ==> #[trigger] abs_geff(ogg_views(groups@)[k])
            <= i64::MAX,
    ensures
        r@.len() == groups@.len(),
        forall|k: int| 0 <= k < r@.len() ==> #[trigger] r@[k].1 == groups@[k],
        forall|k: int| 0 <= k < r@.len() ==> #[trigger] r@[k].0 as int == geff(
            ogg_views(groups@)[k],
        ) + 0x8000_0000_0000_0000,
{
    let ghost orig = groups@;
    let mut groups = groups;
    let mut r: Vec<(u128, Vec<OutputGroup>)> = Vec::new();
    while groups.len() > 0
        invariant
            groups@.len() <= orig.len(),
            groups@ == orig.skip(orig.len() - groups@.len()),
            forall|k: int| 0 <= k < orig.len() ==> #[trigger] abs_geff(ogg_views(orig)[k])
                <= i64::MAX,
            r@.len() == orig.len() - groups@.len(),
            forall|k: int| 0 <= k < r@.len() ==> #[trigger] r@[k].1 == orig[k],
            forall|k: int| 0 <= k < r@.len() ==> #[trigger] r@[k].0 as int == geff(
                ogg_views(orig)[k],
            ) + 0x8000_0000_0000_0000,
        decreases groups@.len(),
    {
        let ghost k = orig.len() - groups@.len();
        let g = groups.remove(0);
        proof {
            assert(orig.skip(k)[0] == orig[k]);
            assert(g == orig[k]);
            assert(groups@ =~= orig.skip(k + 1));
            assert(ogg_views(orig)[k] == og_views(g@));
            // the signed total is within the magnitude total
            let fe = |og: OutputGroupV| og.effective_value as int;
            let fa = |og: OutputGroupV| abs_eff_of(og);
            assert forall|i: int| 0 <= i < og_views(g@).len() implies -(#[trigger] fa(
                og_views(g@)[i],
            )) <= fe(og_views(g@)[i]) <= fa(og_views(g@)[i]) by {}
            crate::sums::lemma_seq_sum_abs_le(og_views(g@), fe, fa);
        }
        let e = group_eff(&g);
        let key: u128 = if e >= 0 {
            0x8000_0000_0000_0000u128 + (e as u128)
        } else {
            0x8000_0000_0000_0000u128 - ((-e) as u128)
        };
        r.push((key, g));
    }
    r
}

/// Copy a vector of flags.
fn copy_bools(v: &Vec<bool>) -> (r: Vec<bool>)
    ensures
        r@ == v@,
{
    let mut r: Vec<bool> = Vec::new();
    let mut i: usize = 0;
    while i < v.len()
        invariant
            0 <= i <= v.len(),
            r@ == v@.take(i as int),
        decreases v.len() - i,
    {
        r.push(v[i]);
        proof {
            assert(r@ =~= v@.take(i + 1));
        }
        i = i + 1;
    }
    proof {
        assert(v@.take(v@.len() as int) =~= v@);
    }
    r
}

/// Pointwise facts about groups carry over to any rearrangement of them.
proof fn lemma_ogs_props_multiset(a: Seq<Seq<OutputGroupV>>, b: Seq<Seq<OutputGroupV>>, fee_rate: u64)
    requires
        a.to_multiset() == b.to_multiset(),
        ogs_wf(b, fee_rate),
    ensures
        ogs_wf(a, fee_rate),
{
    broadcast use vstd::multiset::group_multiset_axioms;

    assert forall|k: int, m: int| 0 <= k < a.len() && 0 <= m < a[k].len() implies og_wf(
        #[trigger] a[k][m],
        fee_rate,
    ) by {
        to_multiset_contains(a, a[k]);
        to_multiset_contains(b, a[k]);
        assert(a.contains(a[k]));
        assert(b.contains(a[k]));
        let j = choose|j: int| 0 <= j < b.len() && b[j] == a[k];
        assert(og_wf(b[j][m], fee_rate));
    }
}

/// Internal outcomes of the search, both triggering the fallback policy.
#[derive(Debug)]
pub enum BnbError {
    /// No selection lands within the tolerance window.
    NoExactMatch,
    /// The try budget ran out before the search finished.
    TotalTriesExceeded,
}

/// Hard ceiling on search iterations.
pub const BNB_TOTAL_TRIES: usize = 100_000;

/// Gather the picked and required groups into a selection result.
fn calculate_cs_result(
    selected_utxos: Vec<Vec<OutputGroup>>,
    required_utxos: Vec<Vec<OutputGroup>>,
    excess: Excess,
    Ghost(fee_rate): Ghost<u64>,
) -> (res: CoinSelectionResult)
    requires
        ogs_wf(ogg_views(selected_utxos@), fee_rate),
        ogs_wf(ogg_views(required_utxos@), fee_rate),
        sum_fee(
            flat_wus(ogg_views(selected_utxos@)) + flat_wus(ogg_views(required_utxos@)),
            fee_rate,
        ) <= u64::MAX,
    ensures
        res.chosen@ == flat_wus(ogg_views(selected_utxos@)) + flat_wus(
            ogg_views(required_utxos@),
        ),
        crate::types::utxo_views(res.selected@) == res.chosen@.map_values(
            |w: WeightedUtxoV| w.utxo,
        ),
        res.fee_amount == sum_fee(res.chosen@, fee_rate),
        res.excess == excess,
{
    let ghost total_wus = flat_wus(ogg_views(selected_utxos@)) + flat_wus(
        ogg_views(required_utxos@),
    );
    proof {
        crate::fees::lemma_fees_nonneg(total_wus, fee_rate);
    }
    let mut selected: Vec<crate::types::Utxo> = Vec::new();
    let mut fee_amount: u64 = 0;
    let ghost mut acc: Seq<WeightedUtxoV> = Seq::empty();
    let ghost sel_gs = ogg_views(selected_utxos@);
    let ghost req_gs = ogg_views(required_utxos@);
    let mut groups = selected_utxos;
    let mut required = required_utxos;
    let mut phase: usize = 0;
    proof {
        broadcast use vstd::multiset::group_multiset_axioms;

        to_multiset_len(acc);
        vstd::multiset::lemma_multiset_empty_len(acc.to_multiset());
        assert(crate::types::utxo_views(selected@) =~= acc.map_values(
            |w: WeightedUtxoV| w.utxo,
        ));
    }
    while phase < 2
        invariant
            0 <= phase <= 2,
            sel_gs == ogg_views(selected_utxos@),
            req_gs == ogg_views(required_utxos@),
            sum_fee(total_wus, fee_rate) <= u64::MAX,
            forall|k: int| 0 <= k < total_wus.len() ==> #[trigger] fee_of(fee_rate)(
                total_wus[k],
            ) >= 0,
            phase == 0 ==> {
                &&& ogg_views(groups@) == sel_gs
                &&& acc =~= Seq::<WeightedUtxoV>::empty()
            },
            phase == 1 ==> {
                &&& ogg_views(groups@) == req_gs
                &&& acc == flat_wus(sel_gs)
            },
            phase == 2 ==> acc == total_wus,
            ogs_wf(ogg_views(groups@), fee_rate),
            phase == 0 ==> ogs_wf(req_gs, fee_rate),
            total_wus == flat_wus(sel_gs) + flat_wus(req_gs),
            crate::types::utxo_views(selected@) == acc.map_values(|w: WeightedUtxoV| w.utxo),
            fee_amount == sum_fee(acc, fee_rate),
            acc.to_multiset().subset_of(total_wus.to_multiset()),
            phase == 0 ==> required@ == required_utxos@,
        decreases 2 - phase,
    {
        let ghost gs = ogg_views(groups@);
        let ghost acc0 = acc;
        proof {
            broadcast use vstd::multiset::group_multiset_axioms;

            assert((acc0 + flat_wus(gs)).to_multiset().subset_of(total_wus.to_multiset())) by {
                if phase == 0 {
                    assert(acc0 + flat_wus(gs) =~= flat_wus(sel_gs));
                    lemma_multiset_commutative(flat_wus(sel_gs), flat_wus(req_gs));
                } else {
                    assert(acc0 + flat_wus(gs) =~= total_wus);
                }
            }
        }
        let mut b: usize = 0;
        while b < groups.len()
            invariant
                0 <= b <= groups.len(),
                gs == ogg_views(groups@),
                sum_fee(total_wus, fee_rate) <= u64::MAX,
                forall|k: int| 0 <= k < total_wus.len() ==> #[trigger] fee_of(fee_rate)(
                    total_wus[k],
                ) >= 0,
                ogs_wf(gs, fee_rate),
                acc == acc0 + flat_wus(gs.take(b as int)),
                crate::types::utxo_views(selected@) == acc.map_values(
                    |w: WeightedUtxoV| w.utxo,
                ),
                fee_amount == sum_fee(acc, fee_rate),
                acc.to_multiset().subset_of(total_wus.to_multiset()),
                (acc0 + flat_wus(gs)).to_multiset().subset_of(total_wus.to_multiset()),
            decreases groups.len() - b,
        {
            let ghost group = gs[b as int];
            proof {
                broadcast use vstd::multiset::group_multiset_axioms;

                assert(gs.take(b + 1) =~= gs.take(b as int).push(group));
                gs.take(b as int).lemma_flatten_push(group);
                assert(flat_wus(gs.take(b + 1)) =~= flat_wus(gs.take(b as int)) + og_wus(
                    group,
                ));
                assert(gs =~= gs.take(b + 1) + gs.skip(b + 1));
                vstd::seq_lib::lemma_flatten_concat(gs.take(b + 1), gs.skip(b + 1));
                assert(flat_wus(gs) =~= flat_wus(gs.take(b + 1)) + flat_wus(gs.skip(b + 1)));
                // the pool contains this prefix plus the current group
                lemma_multiset_commutative(acc0, flat_wus(gs));
                lemma_multiset_commutative(acc0, flat_wus(gs.take(b + 1)));
                lemma_multiset_commutative(
                    flat_wus(gs.take(b + 1)),
                    flat_wus(gs.skip(b + 1)),
                );
                lemma_multiset_commutative(acc0 + flat_wus(gs.take(b as int)), og_wus(group));
                lemma_multiset_commutative(acc0, flat_wus(gs.take(b as int)));
                assert(acc0 + flat_wus(gs.take(b as int)) + og_wus(group) =~= acc0 + flat_wus(
                    gs.take(b + 1),
                ));
                assert((acc0 + flat_wus(gs.take(b as int)) + og_wus(group)).to_multiset().subset_of(
                    total_wus.to_multiset(),
                ));
            }
            let mut m: usize = 0;
            let glen = groups[b].len();
            while m < glen
                invariant
                    0 <= m <= glen,
                    0 <= b < groups@.len(),
                    gs == ogg_views(groups@),
                    glen == groups@[b as int]@.len(),
                    group == gs[b as int],
                    group.len() == glen,
                    sum_fee(total_wus, fee_rate) <= u64::MAX,
                    forall|k: int| 0 <= k < total_wus.len() ==> #[trigger] fee_of(fee_rate)(
                        total_wus[k],
                    ) >= 0,
                    ogs_wf(gs, fee_rate),
                    acc == acc0 + flat_wus(gs.take(b as int)) + og_wus(group).take(m as int),
                    crate::types::utxo_views(selected@) == acc.map_values(
                        |w: WeightedUtxoV| w.utxo,
                    ),
                    fee_amount == sum_fee(acc, fee_rate),
                    acc.to_multiset().subset_of(total_wus.to_multiset()),
                    (acc0 + flat_wus(gs.take(b as int)) + og_wus(group)).to_multiset().subset_of(
                        total_wus.to_multiset(),
                    ),
                decreases glen - m,
            {
                let og = groups[b][m].copied();
                let ghost wv = og@.weighted_utxo;
                proof {
                    broadcast use vstd::multiset::group_multiset_axioms;

                    assert(og@ == group[m as int]);
                    assert(og_wf(group[m as int], fee_rate));
                    assert(wv == og_wus(group)[m as int]);
                    assert(acc.push(wv) =~= acc0 + flat_wus(gs.take(b as int)) + og_wus(
                        group,
                    ).take(m + 1));
                    lemma_seq_sum_push(acc, wv, fee_of(fee_rate));
                    // the grown accumulator still sits inside the pool
                    vstd::seq_lib::to_multiset_build(acc, wv);
                    let base = acc0 + flat_wus(gs.take(b as int));
                    let whole = base + og_wus(group);
                    assert(acc.push(wv).to_multiset().subset_of(whole.to_multiset())) by {
                        lemma_multiset_commutative(base, og_wus(group));
                        lemma_multiset_commutative(base, og_wus(group).take(m as int));
                        vstd::seq_lib::to_multiset_build(og_wus(group).take(m as int), wv);
                        assert(og_wus(group).take(m as int).push(wv) =~= og_wus(group).take(
                            m + 1,
                        ));
                        assert(acc =~= base + og_wus(group).take(m as int));
                        assert forall|x: WeightedUtxoV| #[trigger] acc.push(
                            wv,
                        ).to_multiset().count(x) <= whole.to_multiset().count(x) by {
                            lemma_take_count_le_wus(og_wus(group), m + 1, x);
                        }
                    }
                    crate::sums::lemma_seq_sum_subset(acc.push(wv), total_wus, fee_of(fee_rate));
                    crate::sums::lemma_seq_sum_nonneg(acc, fee_of(fee_rate));
                    assert(og@.fee == fee_of(fee_rate)(wv));
                }
                fee_amount = fee_amount + og.fee;
                let ghost prev_sel = selected@;
                let ghost acc_prev = acc;
                selected.push(og.weighted_utxo.utxo);
                proof {
                    acc = acc.push(wv);
                    assert(crate::types::utxo_views(prev_sel).len() == prev_sel.len());
                    assert(acc_prev.map_values(|x: WeightedUtxoV| x.utxo).len()
                        == acc_prev.len());
                    assert forall|x: int| 0 <= x < selected@.len() implies
                        crate::types::utxo_views(selected@)[x] == acc.map_values(
                        |t: WeightedUtxoV| t.utxo,
                    )[x] by {
                        if x < prev_sel.len() {
                            assert(selected@[x] == prev_sel[x]);
                            assert(crate::types::utxo_views(prev_sel)[x]
                                == acc_prev.map_values(|t: WeightedUtxoV| t.utxo)[x]);
                        } else {
                            assert(selected@[x]@ == wv.utxo);
                        }
                    }
                    assert(crate::types::utxo_views(selected@) =~= acc.map_values(
                        |x: WeightedUtxoV| x.utxo,
                    ));
                }
                m = m + 1;
            }
            proof {
                assert(og_wus(group).take(og_wus(group).len() as int) =~= og_wus(group));
                assert(acc =~= acc0 + flat_wus(gs.take(b + 1)));
            }
            b = b + 1;
        }
        proof {
            assert(gs.take(gs.len() as int) =~= gs);
        }
        if phase == 0 {
            groups = required;
            required = Vec::new();
            proof {
                assert(groups@ == required_utxos@);
                assert(ogg_views(groups@) == req_gs);
                assert(acc =~= flat_wus(sel_gs)) by {
                    assert(acc0 =~= Seq::<WeightedUtxoV>::empty());
                    assert(Seq::<WeightedUtxoV>::empty() + flat_wus(sel_gs) =~= flat_wus(
                        sel_gs,
                    ));
                }
            }
        } else {
            groups = Vec::new();
            proof {
                assert(ogg_views(groups@) =~= Seq::<Seq<OutputGroupV>>::empty());
                assert(acc =~= total_wus);
            }
        }
        proof {
            if phase == 1 {
                assert(ogs_wf(ogg_views(groups@), fee_rate)) by {
                    assert(ogg_views(groups@).len() == 0);
                }
            }
        }
        phase = phase + 1;
    }
    CoinSelectionResult { selected, fee_amount, excess, chosen: Ghost(acc) }
}

proof fn lemma_take_count_le_wus(s: Seq<WeightedUtxoV>, n: int, x: WeightedUtxoV)
    requires
        0 <= n <= s.len(),
    ensures
        s.take(n).to_multiset().count(x) <= s.to_multiset().count(x),
{
    broadcast use vstd::multiset::group_multiset_axioms;

    assert(s =~= s.take(n) + s.skip(n));
    lemma_multiset_commutative(s.take(n), s.skip(n));
}


/// The UTXOs of a flattening are the flattening of the per-group UTXOs.
pub proof fn lemma_og_wus_flatten(gs: Seq<Seq<OutputGroupV>>)
    ensures
        og_wus(gs.flatten()) == gs.map_values(|g: Seq<OutputGroupV>| og_wus(g)).flatten(),
    decreases gs.len(),
{
    let mgs = gs.map_values(|g: Seq<OutputGroupV>| og_wus(g));
    if gs.len() == 0 {
        assert(og_wus(gs.flatten()) =~= mgs.flatten());
    } else {
        lemma_og_wus_flatten(gs.drop_first());
        assert(mgs.drop_first() =~= gs.drop_first().map_values(
            |g: Seq<OutputGroupV>| og_wus(g),
        ));
        assert(gs.flatten() == gs.first() + gs.drop_first().flatten());
        assert(mgs.flatten() == og_wus(gs.first()) + mgs.drop_first().flatten());
        assert(og_wus(gs.first() + gs.drop_first().flatten()) =~= og_wus(gs.first()) + og_wus(
            gs.drop_first().flatten(),
        ));
    }
}

/// A group's effective total is the effective total of the UTXOs it carries.
pub proof fn lemma_geff_as_wu_eff(g: Seq<OutputGroupV>, fee_rate: u64)
    requires
        forall|m: int| 0 <= m < g.len() ==> og_wf(#[trigger] g[m], fee_rate),
    ensures
        geff(g) == seq_sum(og_wus(g), crate::fees::eff_of_rate(fee_rate)),
    decreases g.len(),
{
    if g.len() > 0 {
        assert forall|m: int| 0 <= m < g.drop_last().len() implies og_wf(
            #[trigger] g.drop_last()[m],
            fee_rate,
        ) by {
            assert(g.drop_last()[m] == g[m]);
        }
        lemma_geff_as_wu_eff(g.drop_last(), fee_rate);
        assert(og_wus(g).drop_last() =~= og_wus(g.drop_last()));
        assert(og_wus(g).last() == g.last().weighted_utxo);
        assert(og_wf(g[g.len() - 1], fee_rate));
    } else {
        assert(og_wus(g).len() == 0);
    }
}

/// Dropping non-positive members from each group can only raise the total
/// effective value.
pub proof fn lemma_filtered_total(
    wu_gs: Seq<Seq<WeightedUtxoV>>,
    og_gs: Seq<Seq<OutputGroupV>>,
    fee_rate: u64,
)
    requires
        wu_gs.len() == og_gs.len(),
        forall|k: int| 0 <= k < og_gs.len() ==> og_wus(#[trigger] og_gs[k]) == spec_filter_pos(
            wu_gs[k],
            fee_rate,
        ),
        ogs_wf(og_gs, fee_rate),
    ensures
        suffix_eff(og_gs, 0) >= seq_sum(wu_gs.flatten(), crate::fees::eff_of_rate(fee_rate)),
    decreases og_gs.len(),
{
    if og_gs.len() == 0 {
        assert(wu_gs.flatten() =~= Seq::<WeightedUtxoV>::empty());
    } else {
        assert forall|k: int, m: int|
            0 <= k < og_gs.drop_first().len() && 0 <= m < og_gs.drop_first()[k].len() implies
            og_wf(#[trigger] og_gs.drop_first()[k][m], fee_rate) by {
            assert(og_gs.drop_first()[k] == og_gs[k + 1]);
        }
        assert forall|k: int| 0 <= k < og_gs.drop_first().len() implies og_wus(
            #[trigger] og_gs.drop_first()[k],
        ) == spec_filter_pos(wu_gs.drop_first()[k], fee_rate) by {
            assert(og_gs.drop_first()[k] == og_gs[k + 1]);
            assert(wu_gs.drop_first()[k] == wu_gs[k + 1]);
        }
        lemma_filtered_total(wu_gs.drop_first(), og_gs.drop_first(), fee_rate);
        lemma_suffix_shift(og_gs);
        assert(wu_gs.flatten() == wu_gs.first() + wu_gs.drop_first().flatten());
        lemma_seq_sum_concat(
            wu_gs.first(),
            wu_gs.drop_first().flatten(),
            crate::fees::eff_of_rate(fee_rate),
        );
        assert forall|m: int| 0 <= m < og_gs[0].len() implies og_wf(
            #[trigger] og_gs[0][m],
            fee_rate,
        ) by {}
        lemma_geff_as_wu_eff(og_gs[0], fee_rate);
        lemma_filter_pos(wu_gs.first(), fee_rate);
        assert(og_wus(og_gs[0]) == spec_filter_pos(wu_gs[0], fee_rate));
    }
}

/// A suffix total over all groups steps through the first group.
proof fn lemma_suffix_shift(gs: Seq<Seq<OutputGroupV>>)
    requires
        gs.len() > 0,
    ensures
        suffix_eff(gs, 0) == geff(gs[0]) + suffix_eff(gs.drop_first(), 0),
    decreases gs.len(),
{
    lemma_suffix_shift_from(gs, 1);
}

proof fn lemma_suffix_shift_from(gs: Seq<Seq<OutputGroupV>>, from: int)
    requires
        1 <= from <= gs.len(),
    ensures
        suffix_eff(gs, from) == suffix_eff(gs.drop_first(), from - 1),
    decreases gs.len() - from,
{
    if from < gs.len() {
        lemma_suffix_shift_from(gs, from + 1);
        assert(gs.drop_first()[from - 1] == gs[from]);
    }
}

/// A prefix effective sum is bounded in magnitude by its magnitude sum.
pub proof fn lemma_prefix_eff_abs(gs: Seq<Seq<OutputGroupV>>, n: int)
    requires
        forall|k: int| 0 <= k < gs.len() ==> -abs_geff(gs[k]) <= #[trigger] geff(gs[k])
            <= abs_geff(gs[k]),
    ensures
        -prefix_abs(gs, n) <= prefix_eff(gs, n) <= prefix_abs(gs, n),
    decreases n,
{
    if 0 < n <= gs.len() {
        lemma_prefix_eff_abs(gs, n - 1);
    }
}

/// Well-formedness carries to any groups occurring within well-formed ones.
pub proof fn lemma_ogs_wf_subset(a: Seq<Seq<OutputGroupV>>, b: Seq<Seq<OutputGroupV>>, fee_rate: u64)
    requires
        a.to_multiset().subset_of(b.to_multiset()),
        ogs_wf(b, fee_rate),
    ensures
        ogs_wf(a, fee_rate),
{
    broadcast use vstd::multiset::group_multiset_axioms;

    assert forall|k: int, m: int| 0 <= k < a.len() && 0 <= m < a[k].len() implies og_wf(
        #[trigger] a[k][m],
        fee_rate,
    ) by {
        to_multiset_contains(a, a[k]);
        to_multiset_contains(b, a[k]);
        assert(a.contains(a[k]));
        assert(a.to_multiset().count(a[k]) > 0);
        assert(b.contains(a[k]));
        let j = choose|j: int| 0 <= j < b.len() && b[j] == a[k];
        assert(og_wf(b[j][m], fee_rate));
    }
}

/// Sum up the effective values of all the groups.
fn total_effective_value(groups: &Vec<Vec<OutputGroup>>) -> (r: i64)
    requires
        suffix_abs(ogg_views(groups@), 0) <= i64::MAX,
    ensures
        r as int == suffix_eff(ogg_views(groups@), 0),
{
    let ghost gs = ogg_views(groups@);
    proof {
        lemma_abs_structure(gs);
    }
    let mut total: i64 = 0;
    let mut b: usize = 0;
    while b < groups.len()
        invariant
            0 <= b <= groups.len(),
            gs == ogg_views(groups@),
            suffix_abs(gs, 0) <= i64::MAX,
            total as int == prefix_eff(gs, b as int),
        decreases groups.len() - b,
    {
        proof {
            lemma_abs_structure(gs);
            lemma_prefix_eff_abs(gs, b as int);
            lemma_prefix_eff_abs(gs, b + 1);
            assert(prefix_abs(gs, b + 1) == prefix_abs(gs, b as int) + abs_geff(gs[b as int]));
            assert(suffix_abs(gs, b + 1) >= 0);
            assert(prefix_abs(gs, b + 1) + suffix_abs(gs, b + 1) == suffix_abs(gs, 0));
            assert(prefix_abs(gs, b + 1) <= suffix_abs(gs, 0));
            assert(ogg_views(groups@)[b as int] == og_views(groups@[b as int]@));
        }
        let ge = group_eff(&groups[b]);
        total = total + ge;
        b = b + 1;
    }
    proof {
        lemma_prefix_suffix_eff(gs, gs.len() as int);
    }
    total
}

/// Sum up the fees and the values of the UTXOs all the groups carry.
fn sum_fees_values(groups: &Vec<Vec<OutputGroup>>, Ghost(fee_rate): Ghost<u64>) -> (r: (u64, u64))
    requires
        ogs_wf(ogg_views(groups@), fee_rate),
        sum_fee(flat_wus(ogg_views(groups@)), fee_rate) <= u64::MAX,
        sum_value(flat_wus(ogg_views(groups@))) <= u64::MAX,
    ensures
        r.0 == sum_fee(flat_wus(ogg_views(groups@)), fee_rate),
        r.1 == sum_value(flat_wus(ogg_views(groups@))),
{
    let ghost gs = ogg_views(groups@);
    let ghost pool = flat_wus(gs);
    proof {
        crate::fees::lemma_fees_nonneg(pool, fee_rate);
    }
    let mut fees: u64 = 0;
    let mut values: u64 = 0;
    let ghost mut done: Seq<WeightedUtxoV> = Seq::empty();
    let mut b: usize = 0;
    proof {
        assert(done =~= pool.take(0));
        assert(flat_wus(gs.take(0)) =~= Seq::<WeightedUtxoV>::empty());
    }
    while b < groups.len()
        invariant
            0 <= b <= groups.len(),
            gs == ogg_views(groups@),
            pool == flat_wus(gs),
            ogs_wf(gs, fee_rate),
            sum_fee(pool, fee_rate) <= u64::MAX,
            sum_value(pool) <= u64::MAX,
            forall|k: int| 0 <= k < pool.len() ==> #[trigger] fee_of(fee_rate)(pool[k]) >= 0,
            forall|k: int| 0 <= k < pool.len() ==> #[trigger] value_of(pool[k]) >= 0,
            done == flat_wus(gs.take(b as int)),
            done == pool.take(done.len() as int),
            fees == sum_fee(done, fee_rate),
            values == sum_value(done),
        decreases groups.len() - b,
    {
        let ghost group = gs[b as int];
        proof {
            assert(gs.take(b + 1) =~= gs.take(b as int).push(group));
            gs.take(b as int).lemma_flatten_push(group);
            assert(flat_wus(gs.take(b + 1)) =~= flat_wus(gs.take(b as int)) + og_wus(group));
            assert(gs =~= gs.take(b + 1) + gs.skip(b + 1));
            vstd::seq_lib::lemma_flatten_concat(gs.take(b + 1), gs.skip(b + 1));
            assert(pool =~= (flat_wus(gs.take(b as int)) + og_wus(group)) + flat_wus(
                gs.skip(b + 1),
            ));
        }
        let mut m: usize = 0;
        let glen = groups[b].len();
        while m < glen
            invariant
                0 <= m <= glen,
                0 <= b < groups@.len(),
                gs == ogg_views(groups@),
                pool == flat_wus(gs),
                glen == groups@[b as int]@.len(),
                group == gs[b as int],
                group.len() == glen,
                ogs_wf(gs, fee_rate),
                sum_fee(pool, fee_rate) <= u64::MAX,
                sum_value(pool) <= u64::MAX,
                forall|k: int| 0 <= k < pool.len() ==> #[trigger] fee_of(fee_rate)(pool[k])
                    >= 0,
                forall|k: int| 0 <= k < pool.len() ==> #[trigger] value_of(pool[k]) >= 0,
                pool == (flat_wus(gs.take(b as int)) + og_wus(group)) + flat_wus(
                    gs.skip(b + 1),
                ),
                done.len() == flat_wus(gs.take(b as int)).len() + m,
                done == pool.take(done.len() as int),
                fees == sum_fee(done, fee_rate),
                values == sum_value(done),
            decreases glen - m,
        {
            let ghost n = done.len() as int;
            let ghost wv = group[m as int].weighted_utxo;
            proof {
                assert(og_wf(group[m as int], fee_rate));
                assert(og_wus(group)[m as int] == wv);
                assert(pool[n] == wv);
                assert(done.push(wv) =~= pool.take(n + 1));
                lemma_seq_sum_push(done, wv, fee_of(fee_rate));
                lemma_seq_sum_push(done, wv, |w: WeightedUtxoV| value_of(w));
                crate::sums::lemma_seq_sum_prefix_bound(pool, n + 1, fee_of(fee_rate));
                crate::sums::lemma_seq_sum_prefix_bound(
                    pool,
                    n + 1,
                    |w: WeightedUtxoV| value_of(w),
                );
                assert(pool.take(pool.len() as int) =~= pool);
            }
            let og_fee = groups[b][m].fee;
            let og_value = groups[b][m].weighted_utxo.utxo.txout().value;
            proof {
                assert(groups@[b as int]@[m as int]@ == group[m as int]);
                assert(og_fee == fee_of(fee_rate)(wv));
                assert(og_value == value_of(wv));
            }
            fees = fees + og_fee;
            values = values + og_value;
            proof {
                done = done.push(wv);
            }
            m = m + 1;
        }
        proof {
            assert(og_wus(group).len() == glen);
            assert(done =~= flat_wus(gs.take(b + 1)));
        }
        b = b + 1;
    }
    proof {
        assert(gs.take(gs.len() as int) =~= gs);
        assert(done =~= pool);
    }
    (fees, values)
}


/// A successful search: some sub-multiset of the optional groups whose
/// effective value, on top of the required groups' effective value, lands
/// between the target and the target plus the cost of change, assembled into
/// a result carrying those groups' UTXOs followed by the required ones.
pub open spec fn bnb_success(
    req: Seq<Seq<OutputGroupV>>,
    opt: Seq<Seq<OutputGroupV>>,
    target_amount: int,
    cost_of_change: int,
    fee_rate: u64,
    drain_script: Seq<u8>,
    res: CoinSelectionResult,
) -> bool {
    exists|picked: Seq<Seq<OutputGroupV>>|
        {
            &&& #[trigger] picked.to_multiset().subset_of(opt.to_multiset())
            &&& target_amount <= suffix_eff(req, 0) + seq_sum(
                picked,
                |g: Seq<OutputGroupV>| geff(g),
            ) <= target_amount + cost_of_change
            &&& res.chosen@ == og_wus(picked.flatten()) + og_wus(req.flatten())
            &&& crate::types::utxo_views(res.selected@) == res.chosen@.map_values(
                |w: WeightedUtxoV| w.utxo,
            )
            &&& res.fee_amount == sum_fee(res.chosen@, fee_rate)
            &&& res.excess == spec_decide_change(
                (suffix_eff(req, 0) + seq_sum(picked, |g: Seq<OutputGroupV>| geff(g))
                    - target_amount) as u64,
                fee_rate,
                drain_script,
            )
        }
}

proof fn lemma_fv_nonneg(s: Seq<WeightedUtxoV>, fee_rate: u64)
    ensures
        sum_fee(s, fee_rate) >= 0,
        sum_value(s) >= 0,
{
    crate::fees::lemma_fees_nonneg(s, fee_rate);
    crate::sums::lemma_seq_sum_nonneg(s, fee_of(fee_rate));
    crate::sums::lemma_seq_sum_nonneg(s, |w: WeightedUtxoV| value_of(w));
}

/// The policy a transaction builder uses when none is chosen explicitly.
pub type DefaultCoinSelectionAlgorithm = BranchAndBoundCoinSelection<
    crate::policies::SingleRandomDraw,
>;

/// Branch-and-bound coin selection with a fallback policy.
#[derive(Debug)]
pub struct BranchAndBoundCoinSelection<Cs> {
    /// Virtual bytes the change output is assumed to take during the search.
    pub size_of_change: u64,
    /// The policy run when the search finds nothing.
    pub fallback_algorithm: Cs,
}

impl<Cs> BranchAndBoundCoinSelection<Cs> {
    /// Create an instance with a change-output size and a fallback policy.
    pub fn new(size_of_change: u64, fallback_algorithm: Cs) -> (r: Self)
        ensures
            r.size_of_change == size_of_change,
            r.fallback_algorithm == fallback_algorithm,
    {
        BranchAndBoundCoinSelection { size_of_change, fallback_algorithm }
    }

    /// Search for a set of optional groups whose effective value, on top of
    /// `curr_value` (the required groups' effective value), lies between the
    /// target and the target plus the cost of change. Inclusion is explored
    /// first, largest groups first, within [`BNB_TOTAL_TRIES`] iterations.
    ///
    /// On success the returned selection lies in the window. A `NoExactMatch`
    /// verdict is exhaustive: no selection of optional groups lies in the
    /// window. Only running out of tries carries no claim, and a selection
    /// returned after the budget ran out need not be the tightest one.
    pub fn bnb(
        &self,
        required_utxos: Vec<Vec<OutputGroup>>,
        optional_utxos: Vec<Vec<OutputGroup>>,
        curr_value: i64,
        curr_available_value: i64,
        target_amount: i64,
        cost_of_change: i64,
        drain_script: &Vec<u8>,
        fee_rate: u64,
    ) -> (r: Result<CoinSelectionResult, BnbError>)
        requires
            ogs_wf(ogg_views(required_utxos@), fee_rate),
            ogs_wf(ogg_views(optional_utxos@), fee_rate),
            curr_value == suffix_eff(ogg_views(required_utxos@), 0),
            curr_available_value == suffix_eff(ogg_views(optional_utxos@), 0),
            sum_value(
                flat_wus(ogg_views(required_utxos@)) + flat_wus(ogg_views(optional_utxos@)),
            ) + sum_fee(
                flat_wus(ogg_views(required_utxos@)) + flat_wus(ogg_views(optional_utxos@)),
                fee_rate,
            ) <= i64::MAX,
            forall|k: int, m: int|
                0 <= k < ogg_views(optional_utxos@).len() && 0 <= m < ogg_views(
                    optional_utxos@,
                )[k].len() ==> (#[trigger] ogg_views(optional_utxos@)[k][m]).effective_value
                    > 0,
            curr_value <= target_amount,
            0 <= target_amount,
            0 <= cost_of_change,
            target_amount + cost_of_change <= i64::MAX,
            change_fee_fits(fee_rate, drain_script@),
        ensures
            r matches Ok(res) ==> bnb_success(
                ogg_views(required_utxos@),
                ogg_views(optional_utxos@),
                target_amount as int,
                cost_of_change as int,
                fee_rate,
                drain_script@,
                res,
            ),
            r matches Err(BnbError::NoExactMatch) ==> bnb_no_window(
                ogg_views(required_utxos@),
                ogg_views(optional_utxos@),
                target_amount as int,
                cost_of_change as int,
            ),
    {
        let ghost req_gs = ogg_views(required_utxos@);
        let ghost opt0 = ogg_views(optional_utxos@);
        let ghost init_value = curr_value;
        let ghost pool = flat_wus(req_gs) + flat_wus(opt0);
        let ghost rb = suffix_abs(req_gs, 0);
        proof {
            lemma_abs_structure(opt0);
            lemma_abs_structure(req_gs);
            lemma_group_totals(req_gs, fee_rate);
            lemma_group_totals(opt0, fee_rate);
            crate::sums::lemma_seq_sum_concat(
                flat_wus(req_gs),
                flat_wus(opt0),
                fee_of(fee_rate),
            );
            crate::sums::lemma_seq_sum_concat(
                flat_wus(req_gs),
                flat_wus(opt0),
                |w: WeightedUtxoV| value_of(w),
            );
            lemma_fv_nonneg(flat_wus(req_gs), fee_rate);
            lemma_fv_nonneg(flat_wus(opt0), fee_rate);
            assert(-rb <= init_value <= rb);
            assert(rb + suffix_abs(opt0, 0) <= i64::MAX);
            assert forall|k: int| 0 <= k < opt0.len() implies #[trigger] abs_geff(opt0[k])
                <= i64::MAX by {
                assert(abs_geff(opt0[k]) <= suffix_abs(opt0, 0));
            }
        }
        // sort the optional groups, largest effective value first
        let ghost orig_vec = optional_utxos@;
        let keyed = keyed_by_eff(optional_utxos);
        let ghost keyed0 = keyed@;
        let sorted_ogs = crate::sorting::sort_by_key_asc(keyed);
        let ghost sorted0 = sorted_ogs@;
        let rev = crate::sorting::reverse_vec(sorted_ogs);
        let optional_utxos = crate::sorting::unkey(rev);
        let ghost gs = ogg_views(optional_utxos@);
        let ghost opt_vec0 = optional_utxos@;
        let ghost fge = |g: Seq<OutputGroupV>| geff(g);
        let ghost fga = |g: Seq<OutputGroupV>| abs_geff(g);
        proof {
            broadcast use vstd::multiset::group_multiset_axioms;

            let second = |t: (u128, Vec<OutputGroup>)| t.1;
            sorted0.lemma_reverse_to_multiset();
            crate::sums::lemma_map_values_multiset(sorted0.reverse(), keyed0, second);
            assert(keyed0.map_values(second) =~= orig_vec);
            assert(opt_vec0.to_multiset() == orig_vec.to_multiset());
            crate::sums::lemma_map_values_multiset(
                opt_vec0,
                orig_vec,
                |g: Vec<OutputGroup>| og_views(g@),
            );
            assert(gs.to_multiset() == opt0.to_multiset());
            lemma_ogs_props_multiset(gs, opt0, fee_rate);
            lemma_suffix_eff_is_sum(gs, 0);
            lemma_suffix_eff_is_sum(opt0, 0);
            assert(gs.skip(0) =~= gs);
            assert(opt0.skip(0) =~= opt0);
            crate::sums::lemma_seq_sum_multiset(gs, opt0, fge);
            crate::sums::lemma_seq_sum_multiset(gs, opt0, fga);
            assert(suffix_eff(gs, 0) == suffix_eff(opt0, 0));
            assert(suffix_abs(gs, 0) == suffix_abs(opt0, 0));
            crate::sums::lemma_flatten_multiset(gs, opt0);
            crate::sums::lemma_map_values_multiset(
                gs.flatten(),
                opt0.flatten(),
                |og: OutputGroupV| og.weighted_utxo,
            );
            assert(flat_wus(gs).to_multiset() == flat_wus(opt0).to_multiset());
            lemma_ogs_pos_multiset(gs, opt0);
            assert forall|k: int| 0 <= k < gs.len() implies #[trigger] geff(gs[k]) >= 0 by {
                let f = |og: OutputGroupV| og.effective_value as int;
                assert forall|m: int| 0 <= m < gs[k].len() implies #[trigger] f(gs[k][m]) >= 0
                    by {
                    assert(gs[k][m].effective_value > 0);
                }
                lemma_seq_sum_nonneg(gs[k], f);
            }
        }
        let mut curr_value = curr_value;
        let mut curr_available_value = curr_available_value;
        let mut current_selection: Vec<bool> = Vec::new();
        let mut best_selection: Vec<bool> = Vec::new();
        let mut best_value: Option<i64> = None;
        let mut tries: usize = 0;
        let mut done: bool = false;
        let mut exhausted_no_match: bool = false;
        proof {
            assert(sel_eff(gs, current_selection@) == 0);
            assert(curr_available_value == suffix_eff(gs, 0));
            assert forall|v: Seq<bool>| v.len() == gs.len() implies extends_sel(
                v,
                current_selection@,
            ) by {
                assert(v.take(0) =~= Seq::<bool>::empty());
                assert(current_selection@ =~= Seq::<bool>::empty());
            }
        }
        while !done && tries < BNB_TOTAL_TRIES
            invariant
                gs == ogg_views(optional_utxos@),
                req_gs == ogg_views(required_utxos@),
                ogs_wf(gs, fee_rate),
                rb == suffix_abs(req_gs, 0),
                -rb <= init_value <= rb,
                rb + suffix_abs(gs, 0) <= i64::MAX,
                0 <= target_amount,
                0 <= cost_of_change,
                target_amount + cost_of_change <= i64::MAX,
                current_selection@.len() <= gs.len(),
                curr_value == init_value + sel_eff(gs, current_selection@),
                curr_available_value == suffix_eff(gs, current_selection@.len() as int),
                best_value matches Some(bv) ==> {
                    &&& best_selection@.len() <= gs.len()
                    &&& bv == init_value + sel_eff(gs, best_selection@)
                    &&& target_amount <= bv <= target_amount + cost_of_change
                },
                best_value is None ==> best_selection@.len() == 0,
                best_selection@.len() > 0 ==> best_value is Some,
                best_value is Some && best_selection@.len() == 0 ==> done,
                tries <= BNB_TOTAL_TRIES,
                init_value == suffix_eff(req_gs, 0),
                init_value <= target_amount,
                gs.to_multiset() == opt0.to_multiset(),
                forall|k: int| 0 <= k < gs.len() ==> #[trigger] geff(gs[k]) >= 0,
                forall|v: Seq<bool>|
                    v.len() == gs.len() && #[trigger] v_in_window(
                        gs,
                        init_value as int,
                        target_amount as int,
                        cost_of_change as int,
                        v,
                    ) ==> v_dominated(gs, init_value as int, best_value, v) || extends_sel(
                        v,
                        current_selection@,
                    ) || comes_after(v, current_selection@),
                exhausted_no_match ==> done && best_selection@.len() == 0 && bnb_no_window(
                    req_gs,
                    opt0,
                    target_amount as int,
                    cost_of_change as int,
                ),
            decreases
                    BNB_TOTAL_TRIES - tries,
                    (if done {
                        0int
                    } else {
                        1int
                    }),
        {
            tries = tries + 1;
            let ghost sel = current_selection@;
            let ghost best0 = best_value;
            let ghost mut recorded = false;
            proof {
                lemma_abs_structure(gs);
                lemma_sel_eff_abs(gs, sel);
                assert(prefix_abs(gs, sel.len() as int) + suffix_abs(gs, sel.len() as int)
                    == suffix_abs(gs, 0));
                assert(suffix_abs(gs, sel.len() as int) >= 0);
                assert(prefix_abs(gs, sel.len() as int) >= 0);
            }
            let mut backtrack = false;
            if curr_value + curr_available_value < target_amount || curr_value > target_amount
                + cost_of_change {
                backtrack = true;
            } else if curr_value >= target_amount {
                backtrack = true;
                let replace = match best_value {
                    Option::None => true,
                    Option::Some(bv) => curr_value < bv,
                };
                if replace {
                    best_selection = copy_bools(&current_selection);
                    best_value = Some(curr_value);
                    proof {
                        recorded = true;
                    }
                }
                if curr_value == target_amount {
                    done = true;
                }
            }
            proof {
                let initi = init_value as int;
                let ti = target_amount as int;
                let ci = cost_of_change as int;
                // the tolerance-window bookkeeping survives this decision:
                // pruned subtrees hold no window vector, and a recorded
                // subtree is dominated by what was recorded
                assert forall|v: Seq<bool>|
                    v.len() == gs.len() && #[trigger] v_in_window(gs, initi, ti, ci, v) implies
                    v_dominated(gs, initi, best_value, v) || (!backtrack && extends_sel(
                        v,
                        sel,
                    )) || comes_after(v, sel) by {
                    if v_dominated(gs, initi, best0, v) {
                        // a new best is only recorded when tighter
                        assert(v_dominated(gs, initi, best_value, v));
                    } else if extends_sel(v, sel) {
                        lemma_sel_eff_extends(gs, sel, v);
                        assert(suffix_eff(gs, gs.len() as int) == 0);
                        if curr_value + curr_available_value < target_amount || curr_value
                            > target_amount + cost_of_change {
                            // the subtree under `sel` cannot reach the window
                            assert(false);
                        } else if curr_value >= target_amount {
                            // everything under `sel` is at least the value
                            // just recorded or compared against
                            assert(best_value matches Some(bv) && bv <= curr_value);
                            assert(v_dominated(gs, initi, best_value, v));
                        }
                    }
                }
            }
            if !done {
                if backtrack {
                    // walk back over the trailing exclusions, restoring their
                    // groups to the available pool
                    while current_selection.len() > 0 && !current_selection[
                        current_selection.len() - 1]
                        invariant
                            gs == ogg_views(optional_utxos@),
                            ogs_wf(gs, fee_rate),
                            rb + suffix_abs(gs, 0) <= i64::MAX,
                            -rb <= init_value <= rb,
                            current_selection@.len() <= gs.len(),
                            curr_value == init_value + sel_eff(gs, current_selection@),
                            curr_available_value == suffix_eff(
                                gs,
                                current_selection@.len() as int,
                            ),
                            forall|v: Seq<bool>|
                                v.len() == gs.len() && #[trigger] v_in_window(
                                    gs,
                                    init_value as int,
                                    target_amount as int,
                                    cost_of_change as int,
                                    v,
                                ) ==> v_dominated(gs, init_value as int, best_value, v)
                                    || comes_after(v, current_selection@),
                        decreases current_selection@.len(),
                    {
                        let ghost s0 = current_selection@;
                        let _ = current_selection.pop();
                        let l = current_selection.len();
                        proof {
                            assert(current_selection@ =~= s0.drop_last());
                            assert(!s0.last());
                            assert(sel_eff(gs, s0.drop_last()) == sel_eff(gs, s0));
                            assert forall|v: Seq<bool>|
                                v.len() == gs.len() && #[trigger] v_in_window(
                                    gs,
                                    init_value as int,
                                    target_amount as int,
                                    cost_of_change as int,
                                    v,
                                ) implies v_dominated(gs, init_value as int, best_value, v)
                                || comes_after(v, current_selection@) by {
                                if !v_dominated(gs, init_value as int, best_value, v)
                                    && comes_after(v, s0) {
                                    let i = choose|i: int|
                                        0 <= i < s0.len() && i < v.len() && s0[i] && !v[i]
                                            && v.take(i) == s0.take(i);
                                    assert(i < s0.len() - 1);
                                    assert(s0.drop_last()[i] == s0[i]);
                                    assert(v.take(i) =~= s0.drop_last().take(i));
                                }
                            }
                            lemma_abs_structure(gs);
                            lemma_suffix_unfold(gs, l as int);
                            assert(prefix_abs(gs, l as int) + suffix_abs(gs, l as int)
                                == suffix_abs(gs, 0));
                            assert(prefix_abs(gs, l as int) >= 0);
                            assert(abs_geff(gs[l as int]) <= suffix_abs(gs, 0));
                        }
                        let ge = group_eff(&optional_utxos[l]);
                        curr_available_value = curr_available_value + ge;
                    }
                    if current_selection.len() == 0 {
                        if best_selection.len() == 0 {
                            proof {
                                broadcast use vstd::multiset::group_multiset_axioms;

                                // a recorded best would have been recorded with
                                // the non-empty selection of this iteration
                                if recorded {
                                    assert(best_selection@ == sel);
                                    assert(sel.len() == 0);
                                    assert(curr_value == init_value);
                                    assert(false);
                                }
                                assert(best_value == best0);
                                assert(best_value is None);
                                // the walk is complete and nothing was in the
                                // window, so no selection of groups is
                                let initi = init_value as int;
                                let ti = target_amount as int;
                                let ci = cost_of_change as int;
                                assert forall|picked: Seq<Seq<OutputGroupV>>|
                                    #[trigger] picked.to_multiset().subset_of(
                                        opt0.to_multiset(),
                                    ) implies !(ti <= suffix_eff(req_gs, 0) + seq_sum(
                                    picked,
                                    |g: Seq<OutputGroupV>| geff(g),
                                ) <= ti + ci) by {
                                    assert(picked.to_multiset().subset_of(gs.to_multiset()));
                                    lemma_submultiset_picks(gs, picked);
                                    let v = choose|v: Seq<bool>|
                                        v.len() == gs.len() && (#[trigger] picked_groups(
                                            gs,
                                            v,
                                        )).to_multiset() == picked.to_multiset();
                                    lemma_sel_eff_bounds(gs, v);
                                    crate::sums::lemma_seq_sum_multiset(
                                        picked_groups(gs, v),
                                        picked,
                                        |g: Seq<OutputGroupV>| geff(g),
                                    );
                                    if ti <= initi + sel_eff(gs, v) <= ti + ci {
                                        assert(v_in_window(gs, initi, ti, ci, v));
                                        assert(!comes_after(v, current_selection@));
                                        assert(v_dominated(gs, initi, best_value, v));
                                        assert(false);
                                    }
                                }
                                assert(bnb_no_window(
                                    req_gs,
                                    opt0,
                                    target_amount as int,
                                    cost_of_change as int,
                                ));
                            }
                            exhausted_no_match = true;
                        }
                        done = true;
                    } else {
                        // the walk stopped at an inclusion: turn it into an
                        // exclusion and take its group out of the selection
                        let ghost s0 = current_selection@;
                        let l = current_selection.len() - 1;
                        let _ = current_selection.pop();
                        current_selection.push(false);
                        proof {
                            assert(s0.last());
                            assert(current_selection@ =~= s0.drop_last().push(false));
                            assert(current_selection@.drop_last() =~= s0.drop_last());
                            assert(current_selection@.len() == s0.len());
                            assert(sel_eff(gs, current_selection@) == sel_eff(
                                gs,
                                s0.drop_last(),
                            ));
                            assert forall|v: Seq<bool>|
                                v.len() == gs.len() && #[trigger] v_in_window(
                                    gs,
                                    init_value as int,
                                    target_amount as int,
                                    cost_of_change as int,
                                    v,
                                ) implies v_dominated(gs, init_value as int, best_value, v)
                                || extends_sel(v, current_selection@) || comes_after(
                                v,
                                current_selection@,
                            ) by {
                                if !v_dominated(gs, init_value as int, best_value, v)
                                    && comes_after(v, s0) {
                                    let i = choose|i: int|
                                        0 <= i < s0.len() && i < v.len() && s0[i] && !v[i]
                                            && v.take(i) == s0.take(i);
                                    if i == s0.len() - 1 {
                                        // the exclusion branch of this node is
                                        // exactly where the search now stands
                                        assert(v.take(i) =~= s0.drop_last());
                                        assert(v.take(s0.len() as int)
                                            =~= s0.drop_last().push(false));
                                        assert(extends_sel(v, current_selection@));
                                    } else {
                                        assert(current_selection@[i] == s0[i]);
                                        assert(v.take(i) =~= current_selection@.take(i));
                                    }
                                }
                            }
                            assert(sel_eff(gs, s0) == sel_eff(gs, s0.drop_last()) + geff(
                                gs[l as int],
                            ));
                            lemma_abs_structure(gs);
                            lemma_sel_eff_abs(gs, s0.drop_last());
                            assert(prefix_abs(gs, l as int) + suffix_abs(gs, l as int)
                                == suffix_abs(gs, 0));
                            assert(prefix_abs(gs, l as int) >= 0);
                            assert(suffix_abs(gs, l as int) >= 0);
                            assert(abs_geff(gs[l as int]) <= suffix_abs(gs, 0));
                        }
                        let ge = group_eff(&optional_utxos[l]);
                        curr_value = curr_value - ge;
                    }
                } else {
                    // move forward, including the next group
                    let idx = current_selection.len();
                    proof {
                        if idx == gs.len() {
                            assert(curr_available_value == suffix_eff(gs, gs.len() as int));
                            assert(suffix_eff(gs, gs.len() as int) == 0);
                            assert(false);
                        }
                        lemma_abs_structure(gs);
                        lemma_suffix_unfold(gs, idx as int);
                        lemma_sel_eff_abs(gs, sel.push(true));
                        assert(sel.push(true).drop_last() =~= sel);
                        assert(prefix_abs(gs, idx + 1) == prefix_abs(gs, idx as int)
                            + abs_geff(gs[idx as int]));
                        assert(prefix_abs(gs, idx + 1) + suffix_abs(gs, idx + 1)
                            == suffix_abs(gs, 0));
                        assert(prefix_abs(gs, idx + 1) >= 0);
                        assert(suffix_abs(gs, idx + 1) >= 0);
                        assert(prefix_abs(gs, idx as int) >= 0);
                        assert(abs_geff(gs[idx as int]) <= suffix_abs(gs, 0));
                    }
                    let ge = group_eff(&optional_utxos[idx]);
                    curr_available_value = curr_available_value - ge;
                    current_selection.push(true);
                    curr_value = curr_value + ge;
                    proof {
                        assert(current_selection@ =~= sel.push(true));
                        assert(sel_eff(gs, sel.push(true)) == sel_eff(gs, sel) + geff(
                            gs[idx as int],
                        ));
                        assert forall|v: Seq<bool>|
                            v.len() == gs.len() && #[trigger] v_in_window(
                                gs,
                                init_value as int,
                                target_amount as int,
                                cost_of_change as int,
                                v,
                            ) implies v_dominated(gs, init_value as int, best_value, v)
                            || extends_sel(v, current_selection@) || comes_after(
                            v,
                            current_selection@,
                        ) by {
                            if !v_dominated(gs, init_value as int, best_value, v) {
                                if extends_sel(v, sel) {
                                    if v[idx as int] {
                                        assert(v.take(idx + 1) =~= sel.push(true));
                                        assert(extends_sel(v, current_selection@));
                                    } else {
                                        assert(current_selection@[idx as int]);
                                        assert(v.take(idx as int) =~= current_selection@.take(
                                            idx as int,
                                        ));
                                        assert(comes_after(v, current_selection@));
                                    }
                                } else if comes_after(v, sel) {
                                    let i = choose|i: int|
                                        0 <= i < sel.len() && i < v.len() && sel[i] && !v[i]
                                            && v.take(i) == sel.take(i);
                                    assert(current_selection@[i] == sel[i]);
                                    assert(v.take(i) =~= current_selection@.take(i));
                                }
                            }
                        }
                    }
                }
            }
        }
        if exhausted_no_match {
            // the walk finished and no selection lies in the window
            return Err(BnbError::NoExactMatch);
        }
        // no recorded selection: the budget ran out, or the only hit was the
        // empty selection
        if best_selection.len() == 0 {
            return Err(BnbError::TotalTriesExceeded);
        }
        let bv = best_value.unwrap();
        let remaining_amount = (bv - target_amount) as u64;
        let excess = decide_change(remaining_amount, fee_rate, drain_script);
        // gather the groups of the best selection, in order
        let ghost bsel = best_selection@;
        let mut picked: Vec<Vec<OutputGroup>> = Vec::new();
        let mut rest = optional_utxos;
        let mut k: usize = 0;
        proof {
            assert(rest@ =~= opt_vec0.skip(0));
            assert(ogg_views(picked@) =~= picked_groups(gs, bsel.take(0)));
        }
        while k < best_selection.len()
            invariant
                0 <= k <= bsel.len(),
                bsel == best_selection@,
                bsel.len() <= gs.len(),
                gs == ogg_views(opt_vec0),
                rest@ == opt_vec0.skip(k as int),
                ogg_views(picked@) == picked_groups(gs, bsel.take(k as int)),
            decreases bsel.len() - k,
        {
            let g = rest.remove(0);
            proof {
                assert(opt_vec0.skip(k as int)[0] == opt_vec0[k as int]);
                assert(g == opt_vec0[k as int]);
                assert(rest@ =~= opt_vec0.skip(k + 1));
                assert(bsel.take(k + 1).drop_last() =~= bsel.take(k as int));
                assert(bsel.take(k + 1).last() == bsel[k as int]);
                assert(og_views(g@) == gs[k as int]);
            }
            if best_selection[k] {
                let ghost prev_p = picked@;
                picked.push(g);
                proof {
                    assert(picked_groups(gs, bsel.take(k + 1)) == picked_groups(
                        gs,
                        bsel.take(k as int),
                    ) + seq![gs[k as int]]);
                    assert(ogg_views(picked@) =~= picked_groups(gs, bsel.take(k + 1))) by {
                        assert(ogg_views(prev_p).len() == prev_p.len());
                        assert forall|n: int| 0 <= n < picked@.len() implies ogg_views(
                            picked@,
                        )[n] == picked_groups(gs, bsel.take(k + 1))[n] by {
                            if n < prev_p.len() {
                                assert(picked@[n] == prev_p[n]);
                                assert(ogg_views(picked@)[n] == ogg_views(prev_p)[n]);
                            } else {
                                assert(picked@[n] == g);
                            }
                        }
                    }
                }
            } else {
                proof {
                    assert(picked_groups(gs, bsel.take(k + 1)) == picked_groups(
                        gs,
                        bsel.take(k as int),
                    ) + Seq::<Seq<OutputGroupV>>::empty());
                    assert(picked_groups(gs, bsel.take(k as int)) + Seq::<Seq<
                        OutputGroupV,
                    >>::empty() =~= picked_groups(gs, bsel.take(k as int)));
                }
            }
            k = k + 1;
        }
        let ghost pickedg = picked_groups(gs, bsel);
        proof {
            broadcast use vstd::multiset::group_multiset_axioms;

            assert(bsel.take(bsel.len() as int) =~= bsel);
            assert(ogg_views(picked@) == pickedg);
            lemma_sel_eff_bounds(gs, bsel);
            lemma_ogs_wf_subset(pickedg, gs, fee_rate);
            // the picked UTXOs sit within the optional pool
            crate::sums::lemma_flatten_subset(pickedg, gs);
            crate::sums::lemma_map_values_subset(
                pickedg.flatten(),
                gs.flatten(),
                |og: OutputGroupV| og.weighted_utxo,
            );
            assert(flat_wus(pickedg).to_multiset().subset_of(flat_wus(gs).to_multiset()));
            // so the fees of everything assembled fit the machine
            crate::fees::lemma_fees_nonneg(flat_wus(gs), fee_rate);
            crate::sums::lemma_seq_sum_subset(
                flat_wus(pickedg),
                flat_wus(gs),
                fee_of(fee_rate),
            );
            crate::sums::lemma_seq_sum_multiset(flat_wus(gs), flat_wus(opt0), fee_of(fee_rate));
            crate::sums::lemma_seq_sum_concat(
                flat_wus(pickedg),
                flat_wus(req_gs),
                fee_of(fee_rate),
            );
            lemma_fv_nonneg(flat_wus(req_gs), fee_rate);
            lemma_fv_nonneg(flat_wus(opt0), fee_rate);
            lemma_fv_nonneg(flat_wus(pickedg), fee_rate);
        }
        let result = calculate_cs_result(picked, required_utxos, excess, Ghost(fee_rate));
        proof {
            broadcast use vstd::multiset::group_multiset_axioms;

            assert(pickedg.to_multiset().subset_of(opt0.to_multiset()));
            assert(bv == init_value + sel_eff(gs, bsel));
            assert(sel_eff(gs, bsel) == seq_sum(pickedg, |g: Seq<OutputGroupV>| geff(g)));
            assert(result.chosen@ == og_wus(pickedg.flatten()) + og_wus(req_gs.flatten()));
            assert(bnb_success(
                req_gs,
                opt0,
                target_amount as int,
                cost_of_change as int,
                fee_rate,
                drain_script@,
                result,
            ));
        }
        Ok(result)
    }
}



/// Every grouped UTXO respects the machine bounds its source list respects.
pub proof fn lemma_groups_wu_ok(gs: Seq<Seq<WeightedUtxoV>>, src: Seq<WeightedUtxoV>, fee_rate: u64)
    requires
        gs.flatten().to_multiset() == src.to_multiset(),
        forall|i: int| 0 <= i < src.len() ==> wu_ok(#[trigger] src[i], fee_rate),
    ensures
        forall|k: int, m: int| 0 <= k < gs.len() && 0 <= m < gs[k].len() ==> wu_ok(
            #[trigger] gs[k][m],
            fee_rate,
        ),
{
    broadcast use vstd::multiset::group_multiset_axioms;

    assert forall|k: int, m: int| 0 <= k < gs.len() && 0 <= m < gs[k].len() implies wu_ok(
        #[trigger] gs[k][m],
        fee_rate,
    ) by {
        let x = gs[k][m];
        crate::sums::lemma_flatten_remove(gs, k);
        to_multiset_contains(gs[k], x);
        assert(gs[k].contains(x));
        assert(gs[k].to_multiset().count(x) > 0);
        assert(gs.flatten().to_multiset().count(x) > 0);
        to_multiset_contains(src, x);
        assert(src.contains(x));
        let i = choose|i: int| 0 <= i < src.len() && src[i] == x;
        assert(wu_ok(src[i], fee_rate));
    }
}


impl Default for BranchAndBoundCoinSelection<crate::policies::SingleRandomDraw> {
    /// The default search assumes a pay-to-witness-public-key-hash change
    /// output (8 value bytes, 1 length byte, 22 script bytes) and falls back
    /// to a single random draw.
    fn default() -> (r: Self)
        ensures
            r.size_of_change == 31,
            r.fallback_algorithm == (crate::policies::SingleRandomDraw),
    {
        BranchAndBoundCoinSelection {
            size_of_change: 8 + 1 + 22,
            fallback_algorithm: crate::policies::SingleRandomDraw,
        }
    }
}

impl<R: crate::selection::UniformRandom, Cs: crate::selection::CoinSelectionAlgorithm<R>>
    crate::selection::CoinSelectionAlgorithm<R> for BranchAndBoundCoinSelection<Cs> {
    open spec fn pre(&self, p: crate::selection::CoinSelectionParamsV) -> bool {
        &&& 4 * self.size_of_change <= u64::MAX
        &&& p.fee_rate * (4 * self.size_of_change) + 999 <= u64::MAX
        &&& p.target_amount + crate::primitives::spec_fee_for_weight(
            p.fee_rate,
            4 * self.size_of_change,
        ) <= i64::MAX
        &&& self.fallback_algorithm.pre(p)
    }

    fn coin_select(&self, params: crate::selection::CoinSelectionParams, rng: &mut R) -> (r:
        Result<CoinSelectionResult, crate::selection::InsufficientFunds>) {
        self.select_branch_and_bound(params, rng)
    }
}

impl<Cs> BranchAndBoundCoinSelection<Cs> {
    /// Run the branch-and-bound selection, falling back to the configured
    /// policy when the search finds nothing.
    pub fn select_branch_and_bound<R: crate::selection::UniformRandom>(
        &self,
        params: crate::selection::CoinSelectionParams,
        rng: &mut R,
    ) -> (r: Result<CoinSelectionResult, crate::selection::InsufficientFunds>) where
        Cs: crate::selection::CoinSelectionAlgorithm<R>,

        requires
            crate::selection::params_wf(params@),
            4 * self.size_of_change <= u64::MAX,
            params@.fee_rate * (4 * self.size_of_change) + 999 <= u64::MAX,
            params@.target_amount + crate::primitives::spec_fee_for_weight(
                params@.fee_rate,
                4 * self.size_of_change,
            ) <= i64::MAX,
            self.fallback_algorithm.pre(params@),
        ensures
            crate::selection::universal_post(params@, r),
            bnb_select_post(params@, r),
    {
        let ghost p = params@;
        let ghost pool = p.required + p.optional;
        // keep the request for the fallback policy
        let required_copy = crate::types::copy_weighted_utxos(&params.required_utxos);
        let optional_copy = crate::types::copy_weighted_utxos(&params.optional_utxos);
        let drain_copy = crate::types::copy_bytes(&params.drain_script);
        let crate::selection::CoinSelectionParams {
            required_utxos,
            optional_utxos,
            fee_rate,
            target_amount,
            drain_script,
            avoid_partial_spends,
        } = params;
        let required_groups = crate::grouping::group_utxos_if_applies(
            required_utxos,
            avoid_partial_spends,
        );
        let optional_groups = crate::grouping::group_utxos_if_applies(
            optional_utxos,
            avoid_partial_spends,
        );
        let ghost req_wu_gs = crate::grouping::group_views(required_groups@);
        let ghost opt_wu_gs = crate::grouping::group_views(optional_groups@);
        proof {
            crate::fees::lemma_fees_nonneg(pool, fee_rate);
            crate::sums::lemma_seq_sum_nonneg(pool, fee_of(fee_rate));
            crate::sums::lemma_seq_sum_nonneg(pool, |w: WeightedUtxoV| value_of(w));
            assert forall|i: int| 0 <= i < pool.len() implies wu_ok(
                #[trigger] pool[i],
                fee_rate,
            ) by {
                crate::sums::lemma_seq_sum_element_bound(pool, i, fee_of(fee_rate));
                crate::sums::lemma_seq_sum_element_bound(
                    pool,
                    i,
                    |w: WeightedUtxoV| value_of(w),
                );
                assert(crate::fees::input_fee_fits(fee_rate, pool[i].satisfaction_weight));
            }
            assert forall|i: int| 0 <= i < p.required.len() implies wu_ok(
                #[trigger] p.required[i],
                fee_rate,
            ) by {
                assert(p.required[i] == pool[i]);
            }
            assert forall|i: int| 0 <= i < p.optional.len() implies wu_ok(
                #[trigger] p.optional[i],
                fee_rate,
            ) by {
                assert(p.optional[i] == pool[p.required.len() + i]);
            }
            lemma_groups_wu_ok(req_wu_gs, p.required, fee_rate);
            lemma_groups_wu_ok(opt_wu_gs, p.optional, fee_rate);
        }
        let required_ogs = build_output_groups(required_groups, fee_rate);
        let optional_ogs = build_filtered_output_groups(optional_groups, fee_rate);
        let ghost req_gs = ogg_views(required_ogs@);
        let ghost opt_gs = ogg_views(optional_ogs@);
        proof {
            broadcast use vstd::multiset::group_multiset_axioms;

            // the required groups carry exactly the required UTXOs
            lemma_og_wus_flatten(req_gs);
            assert(req_gs.map_values(|g: Seq<OutputGroupV>| og_wus(g)) =~= req_wu_gs);
            assert(flat_wus(req_gs) == req_wu_gs.flatten());
            assert(flat_wus(req_gs).to_multiset() == p.required.to_multiset());
            // the optional groups carry a filtered subset of the optional UTXOs
            lemma_og_wus_flatten(opt_gs);
            let mapped_opt = opt_gs.map_values(|g: Seq<OutputGroupV>| og_wus(g));
            assert forall|k: int| 0 <= k < opt_gs.len() implies (#[trigger] mapped_opt[
            k]).to_multiset().subset_of(opt_wu_gs[k].to_multiset()) by {
                assert(mapped_opt[k] == og_wus(opt_gs[k]));
                assert(og_wus(opt_gs[k]) == spec_filter_pos(opt_wu_gs[k], fee_rate));
                lemma_filter_pos(opt_wu_gs[k], fee_rate);
            }
            crate::sums::lemma_pointwise_subset_flatten(mapped_opt, opt_wu_gs);
            assert(flat_wus(opt_gs).to_multiset().subset_of(p.optional.to_multiset()));
            // everything the search may draw from sits within the request
            let combined = flat_wus(req_gs) + flat_wus(opt_gs);
            lemma_multiset_commutative(flat_wus(req_gs), flat_wus(opt_gs));
            lemma_multiset_commutative(p.required, p.optional);
            assert(combined.to_multiset().subset_of(pool.to_multiset()));
            crate::sums::lemma_seq_sum_subset(combined, pool, fee_of(fee_rate));
            crate::sums::lemma_seq_sum_subset(combined, pool, |w: WeightedUtxoV| value_of(w));
            crate::sums::lemma_seq_sum_concat(
                flat_wus(req_gs),
                flat_wus(opt_gs),
                fee_of(fee_rate),
            );
            crate::sums::lemma_seq_sum_concat(
                flat_wus(req_gs),
                flat_wus(opt_gs),
                |w: WeightedUtxoV| value_of(w),
            );
            lemma_fv_nonneg(flat_wus(req_gs), fee_rate);
            lemma_fv_nonneg(flat_wus(opt_gs), fee_rate);
            lemma_fv_nonneg(combined, fee_rate);
            // bounds for summing the effective values
            lemma_group_totals(req_gs, fee_rate);
            lemma_group_totals(opt_gs, fee_rate);
            lemma_abs_structure(req_gs);
            lemma_abs_structure(opt_gs);
        }
        let curr_value = total_effective_value(&required_ogs);
        let curr_available_value = total_effective_value(&optional_ogs);
        let change_weight = self.size_of_change * 4;
        let cost_of_change_fee = crate::primitives::fee_for_weight(fee_rate, change_weight);
        proof {
            vstd::arithmetic::mul::lemma_mul_nonnegative(
                fee_rate as int,
                4 * self.size_of_change,
            );
            assert(4 * self.size_of_change == self.size_of_change * 4) by {
                vstd::arithmetic::mul::lemma_mul_is_commutative(4, self.size_of_change as int);
            }
        }
        let cost_of_change = cost_of_change_fee as i64;
        let signed_target = target_amount as i64;
        proof {
            broadcast use vstd::multiset::group_multiset_axioms;

            // the two running totals are the effective values of the
            // required UTXOs and of the positive-valued optional UTXOs
            let eff = crate::fees::eff_of_rate(fee_rate);
            let pos = spec_filter_pos(p.optional, fee_rate);
            crate::fees::lemma_eff_split(p.required, fee_rate);
            crate::fees::lemma_eff_split(pos, fee_rate);
            crate::sums::lemma_seq_sum_multiset(flat_wus(req_gs), p.required, fee_of(fee_rate));
            crate::sums::lemma_seq_sum_multiset(
                flat_wus(req_gs),
                p.required,
                |w: WeightedUtxoV| value_of(w),
            );
            assert(curr_value as int == seq_sum(p.required, eff));
            let mapped_opt = opt_gs.map_values(|g: Seq<OutputGroupV>| og_wus(g));
            assert(mapped_opt =~= opt_wu_gs.map_values(
                |g: Seq<WeightedUtxoV>| spec_filter_pos(g, fee_rate),
            ));
            lemma_filter_pos_flatten(opt_wu_gs, fee_rate);
            assert(flat_wus(opt_gs) == spec_filter_pos(opt_wu_gs.flatten(), fee_rate));
            lemma_filter_pos_multiset(opt_wu_gs.flatten(), p.optional, fee_rate);
            assert(flat_wus(opt_gs).to_multiset() == pos.to_multiset());
            crate::sums::lemma_seq_sum_multiset(flat_wus(opt_gs), pos, fee_of(fee_rate));
            crate::sums::lemma_seq_sum_multiset(
                flat_wus(opt_gs),
                pos,
                |w: WeightedUtxoV| value_of(w),
            );
            assert(curr_available_value as int == seq_sum(pos, eff));
            crate::sums::lemma_seq_sum_concat(p.required, pos, fee_of(fee_rate));
            crate::sums::lemma_seq_sum_concat(p.required, pos, |w: WeightedUtxoV| value_of(w));
        }
        if !(curr_value + curr_available_value >= signed_target) {
            // even every considered UTXO together cannot reach the target
            let sums_req = sum_fees_values(&required_ogs, Ghost(fee_rate));
            let sums_opt = sum_fees_values(&optional_ogs, Ghost(fee_rate));
            let utxo_fees = sums_req.0 + sums_opt.0;
            let utxo_value = sums_req.1 + sums_opt.1;
            proof {
                // the whole request falls short as well: dropped members only
                // lowered the total effective value
                lemma_filtered_total(opt_wu_gs, opt_gs, fee_rate);
                crate::sums::lemma_seq_sum_multiset(
                    opt_wu_gs.flatten(),
                    p.optional,
                    crate::fees::eff_of_rate(fee_rate),
                );
                crate::fees::lemma_eff_split(p.optional, fee_rate);
                crate::fees::lemma_eff_split(p.required, fee_rate);
                crate::sums::lemma_seq_sum_multiset(
                    flat_wus(req_gs),
                    p.required,
                    fee_of(fee_rate),
                );
                crate::sums::lemma_seq_sum_multiset(
                    flat_wus(req_gs),
                    p.required,
                    |w: WeightedUtxoV| value_of(w),
                );
                crate::sums::lemma_seq_sum_concat(p.required, p.optional, fee_of(fee_rate));
                crate::sums::lemma_seq_sum_concat(
                    p.required,
                    p.optional,
                    |w: WeightedUtxoV| value_of(w),
                );
                assert(sum_value(pool) < p.target_amount + sum_fee(pool, fee_rate));
            }
            let failure = crate::selection::InsufficientFunds {
                needed: target_amount + utxo_fees,
                available: utxo_value,
            };
            proof {
                let pos = spec_filter_pos(p.optional, fee_rate);
                assert(failure.needed == p.target_amount + sum_fee(
                    p.required + pos,
                    fee_rate,
                ));
                assert(failure.available == sum_value(p.required + pos));
                assert(bnb_select_post(p, Err(failure)));
            }
            return Err(failure);
        }
        if curr_value > signed_target {
            // the required UTXOs alone exceed the target
            let remaining_amount = (curr_value - signed_target) as u64;
            let excess = decide_change(remaining_amount, fee_rate, &drain_script);
            let no_optional: Vec<Vec<OutputGroup>> = Vec::new();
            proof {
                assert(ogg_views(no_optional@) =~= Seq::<Seq<OutputGroupV>>::empty());
                assert(ogg_views(no_optional@).flatten() =~= Seq::<OutputGroupV>::empty());
                assert(flat_wus(ogg_views(no_optional@)) =~= Seq::<WeightedUtxoV>::empty());
                assert(flat_wus(ogg_views(no_optional@)) + flat_wus(req_gs) =~= flat_wus(
                    req_gs,
                ));
                crate::sums::lemma_seq_sum_multiset(
                    flat_wus(req_gs),
                    p.required,
                    fee_of(fee_rate),
                );
                crate::sums::lemma_seq_sum_multiset(
                    flat_wus(req_gs),
                    p.required,
                    |w: WeightedUtxoV| value_of(w),
                );
            }
            let result = calculate_cs_result(no_optional, required_ogs, excess, Ghost(fee_rate));
            proof {
                broadcast use vstd::multiset::group_multiset_axioms;

                let chosen = result.chosen@;
                assert(chosen == flat_wus(req_gs));
                crate::sums::lemma_seq_sum_multiset(chosen, p.required, fee_of(fee_rate));
                crate::sums::lemma_seq_sum_multiset(
                    chosen,
                    p.required,
                    |w: WeightedUtxoV| value_of(w),
                );
                lemma_multiset_commutative(p.required, p.optional);
                assert(chosen.to_multiset().subset_of(pool.to_multiset()));
                assert(sum_value(chosen) - sum_fee(chosen, fee_rate) == curr_value);
                assert(crate::selection::universal_post(p, Ok(result)));
                assert(bnb_select_post(p, Ok(result)));
            }
            return Ok(result);
        }
        let bnb_result = self.bnb(
            required_ogs,
            optional_ogs,
            curr_value,
            curr_available_value,
            signed_target,
            cost_of_change,
            &drain_script,
            fee_rate,
        );
        match bnb_result {
            Ok(res) => {
                proof {
                    broadcast use vstd::multiset::group_multiset_axioms;

                    let picked = choose|picked: Seq<Seq<OutputGroupV>>|
                        {
                            &&& #[trigger] picked.to_multiset().subset_of(
                                opt_gs.to_multiset(),
                            )
                            &&& signed_target <= suffix_eff(req_gs, 0) + seq_sum(
                                picked,
                                |g: Seq<OutputGroupV>| geff(g),
                            ) <= signed_target + cost_of_change
                            &&& res.chosen@ == og_wus(picked.flatten()) + og_wus(
                                req_gs.flatten(),
                            )
                            &&& crate::types::utxo_views(res.selected@)
                                == res.chosen@.map_values(|w: WeightedUtxoV| w.utxo)
                            &&& res.fee_amount == sum_fee(res.chosen@, fee_rate)
                            &&& res.excess == spec_decide_change(
                                (suffix_eff(req_gs, 0) + seq_sum(
                                    picked,
                                    |g: Seq<OutputGroupV>| geff(g),
                                ) - signed_target) as u64,
                                fee_rate,
                                drain_script@,
                            )
                        };
                    let fge = |g: Seq<OutputGroupV>| geff(g);
                    let fe = |og: OutputGroupV| og.effective_value as int;
                    let bv = suffix_eff(req_gs, 0) + seq_sum(picked, fge);
                    // the picked groups are well formed and sit in the pool
                    lemma_ogs_wf_subset(picked, opt_gs, fee_rate);
                    crate::sums::lemma_flatten_subset(picked, opt_gs);
                    crate::sums::lemma_map_values_subset(
                        picked.flatten(),
                        opt_gs.flatten(),
                        |og: OutputGroupV| og.weighted_utxo,
                    );
                    assert(og_wus(picked.flatten()).to_multiset().subset_of(
                        flat_wus(opt_gs).to_multiset(),
                    ));
                    // effective value of what was picked against value and fee
                    assert(forall|g: Seq<OutputGroupV>| #[trigger] fge(g) == seq_sum(g, fe));
                    crate::sums::lemma_seq_sum_flatten(picked, fe, fge);
                    assert forall|m: int| 0 <= m < picked.flatten().len() implies og_wf(
                        #[trigger] picked.flatten()[m],
                        fee_rate,
                    ) by {
                        lemma_flatten_index_wf(picked, m, fee_rate);
                    }
                    lemma_abs_le_value_fee(picked.flatten(), fee_rate);
                    lemma_group_totals(req_gs, fee_rate);
                    let chosen = res.chosen@;
                    crate::sums::lemma_seq_sum_concat(
                        og_wus(picked.flatten()),
                        og_wus(req_gs.flatten()),
                        fee_of(fee_rate),
                    );
                    crate::sums::lemma_seq_sum_concat(
                        og_wus(picked.flatten()),
                        og_wus(req_gs.flatten()),
                        |w: WeightedUtxoV| value_of(w),
                    );
                    assert(sum_value(chosen) - sum_fee(chosen, fee_rate) == bv);
                    // the required UTXOs are all included, and nothing from
                    // outside the request is
                    lemma_multiset_commutative(
                        og_wus(picked.flatten()),
                        og_wus(req_gs.flatten()),
                    );
                    lemma_multiset_commutative(p.required, p.optional);
                    assert(p.required.to_multiset().subset_of(chosen.to_multiset()));
                    assert(chosen.to_multiset().subset_of(pool.to_multiset()));
                    assert(crate::selection::universal_post(p, Ok(res)));
                }
                Ok(res)
            },
            Err(_) => {
                // no fitting selection: run the fallback on the request
                let params2 = crate::selection::CoinSelectionParams {
                    required_utxos: required_copy,
                    optional_utxos: optional_copy,
                    fee_rate,
                    target_amount,
                    drain_script: drain_copy,
                    avoid_partial_spends,
                };
                proof {
                    assert(params2@ == p);
                }
                self.fallback_algorithm.coin_select(params2, rng)
            },
        }
    }
}

} // verus!
