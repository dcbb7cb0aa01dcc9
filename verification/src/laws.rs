//! Properties that hold across the selection policies, stated and proved
//! over the contracts of the library.

use vstd::prelude::*;

use vstd::seq_lib::to_multiset_contains;
use vstd::seq_lib::to_multiset_remove;

use crate::driver::apply_picks;
use crate::driver::driver_chosen;
use crate::driver::lemma_picks_len;
use crate::driver::lemma_picks_required;
use crate::driver::spec_picks;
use crate::selection::universal_post;
use crate::selection::CoinSelectionParamsV;
use crate::selection::CoinSelectionResult;
use crate::types::same_outpoint;
use crate::types::WeightedUtxoV;

verus! {

/// No UTXO is spent twice: when the request holds no two UTXOs with the
/// same outpoint, neither does any successful selection.
pub proof fn lemma_no_duplicate_outpoints(p: CoinSelectionParamsV, res: CoinSelectionResult)
    requires
        universal_post(p, Ok(res)),
        crate::dedup::distinct_outpoints(p.required + p.optional),
    ensures
        crate::dedup::distinct_outpoints(res.chosen@),
{
    broadcast use vstd::multiset::group_multiset_axioms;

    let pool = p.required + p.optional;
    let chosen = res.chosen@;
    assert forall|i: int, j: int| 0 <= i < j < chosen.len() implies !same_outpoint(
        #[trigger] chosen[i].outpoint(),
        #[trigger] chosen[j].outpoint(),
    ) by {
        if same_outpoint(chosen[i].outpoint(), chosen[j].outpoint()) {
            let x = chosen[i];
            let y = chosen[j];
            to_multiset_contains(chosen, x);
            to_multiset_contains(chosen, y);
            assert(chosen.contains(x));
            assert(chosen.contains(y));
            if x == y {
                // the same UTXO twice in the selection means it occurs twice
                // in the request
                to_multiset_remove(chosen, i);
                assert(chosen.remove(i)[j - 1] == chosen[j]);
                assert(chosen.remove(i).contains(y));
                to_multiset_contains(chosen.remove(i), y);
                assert(chosen.to_multiset().count(x) >= 2);
                assert(pool.to_multiset().count(x) >= 2);
                to_multiset_contains(pool, x);
                assert(pool.contains(x));
                let a = choose|a: int| 0 <= a < pool.len() && pool[a] == x;
                to_multiset_remove(pool, a);
                assert(pool.remove(a).to_multiset().count(x) >= 1);
                to_multiset_contains(pool.remove(a), x);
                assert(pool.remove(a).contains(x));
                let b0 = choose|b0: int| 0 <= b0 < pool.remove(a).len() && pool.remove(a)[b0]
                    == x;
                let b = if b0 < a {
                    b0
                } else {
                    b0 + 1
                };
                assert(pool[b] == x);
                assert(a != b);
                if a < b {
                    assert(!same_outpoint(pool[a].outpoint(), pool[b].outpoint()));
                } else {
                    assert(!same_outpoint(pool[b].outpoint(), pool[a].outpoint()));
                }
            } else {
                // two different UTXOs of the selection sharing an outpoint
                // would be two request entries sharing it
                assert(chosen.to_multiset().count(x) > 0);
                assert(chosen.to_multiset().count(y) > 0);
                assert(pool.to_multiset().count(x) > 0);
                assert(pool.to_multiset().count(y) > 0);
                to_multiset_contains(pool, x);
                to_multiset_contains(pool, y);
                let a = choose|a: int| 0 <= a < pool.len() && pool[a] == x;
                let b = choose|b: int| 0 <= b < pool.len() && pool[b] == y;
                assert(a != b);
                if a < b {
                    assert(!same_outpoint(pool[a].outpoint(), pool[b].outpoint()));
                } else {
                    assert(!same_outpoint(pool[b].outpoint(), pool[a].outpoint()));
                }
            }
        }
    }
}

/// Groups are spent atomically: what the driver chooses decomposes into
/// whole groups, with every required group among them. Together with the
/// grouping guarantee — under partial-spend avoidance every group holds
/// UTXOs of one script, and for each script at most one group is not full —
/// this says that for every address either all of its pooled UTXOs are
/// spent or none, up to the group-size cap.
pub proof fn lemma_selection_spends_whole_groups(
    groups: Seq<(bool, Seq<WeightedUtxoV>)>,
    fee_rate: u64,
    target_amount: u64,
)
    ensures
        exists|picks: Seq<bool>|
            {
                &&& picks.len() == groups.len()
                &&& driver_chosen(groups, fee_rate, target_amount) == #[trigger] apply_picks(
                    groups,
                    picks,
                )
                &&& forall|j: int| 0 <= j < groups.len() && #[trigger] groups[j].0 ==> picks[j]
            },
{
    let picks = spec_picks(groups, fee_rate, target_amount, Seq::empty());
    lemma_picks_len(groups, fee_rate, target_amount, Seq::empty());
    lemma_picks_required(groups, fee_rate, target_amount, Seq::empty());
    assert(driver_chosen(groups, fee_rate, target_amount) == apply_picks(groups, picks));
}


/// The grouping guarantee survives reordering: the policies sort or shuffle
/// the groups before feeding them to the driver, and the reordered groups
/// are still a valid grouping of the same UTXOs. With
/// [`lemma_selection_spends_whole_groups`] this carries the partial-spend
/// guarantee to the groups the driver actually consumed.
pub proof fn lemma_group_post_permuted(
    input: Seq<WeightedUtxoV>,
    gs1: Seq<Seq<WeightedUtxoV>>,
    gs2: Seq<Seq<WeightedUtxoV>>,
)
    requires
        crate::grouping::group_post(input, true, gs1),
        gs1.to_multiset() == gs2.to_multiset(),
    ensures
        crate::grouping::group_post(input, true, gs2),
{
    broadcast use vstd::multiset::group_multiset_axioms;

    crate::sums::lemma_flatten_multiset(gs2, gs1);
    let bound = crate::grouping::OUTPUT_GROUP_MAX_ENTRIES;
    assert forall|k: int| 0 <= k < gs2.len() implies 1 <= #[trigger] gs2[k].len() <= bound
        && crate::grouping::same_script_group(gs2[k]) && crate::grouping::is_script_run(
        input,
        gs2[k],
    ) by {
        to_multiset_contains(gs2, gs2[k]);
        to_multiset_contains(gs1, gs2[k]);
        assert(gs2.contains(gs2[k]));
        assert(gs1.contains(gs2[k]));
        let j = choose|j: int| 0 <= j < gs1.len() && gs1[j] == gs2[k];
        assert(1 <= gs1[j].len() <= bound);
        assert(crate::grouping::same_script_group(gs1[j]));
    }
    assert forall|k: int| 0 <= k < gs2.len() implies crate::grouping::is_script_run(
        input,
        #[trigger] gs2[k],
    ) by {
        to_multiset_contains(gs2, gs2[k]);
        to_multiset_contains(gs1, gs2[k]);
        assert(gs2.contains(gs2[k]));
        assert(gs1.contains(gs2[k]));
        let j = choose|j: int| 0 <= j < gs1.len() && gs1[j] == gs2[k];
        assert(crate::grouping::is_script_run(input, gs1[j]));
    }
    assert forall|k: int, l: int|
        0 <= k < gs2.len() && 0 <= l < gs2.len() && k != l && #[trigger] gs2[k].first().script()
            == #[trigger] gs2[l].first().script() implies gs2[k].len() == bound || gs2[l].len()
        == bound by {
        if gs2[k] == gs2[l] {
            // the same group twice: it occurs twice among the originals
            to_multiset_contains(gs2, gs2[k]);
            let i0 = if k < l {
                k
            } else {
                l
            };
            let i1 = if k < l {
                l
            } else {
                k
            };
            to_multiset_remove(gs2, i0);
            assert(gs2.remove(i0)[i1 - 1] == gs2[i1]);
            assert(gs2.remove(i0).contains(gs2[k]));
            to_multiset_contains(gs2.remove(i0), gs2[k]);
            assert(gs2.to_multiset().count(gs2[k]) >= 2);
            assert(gs1.to_multiset().count(gs2[k]) >= 2);
            to_multiset_contains(gs1, gs2[k]);
            assert(gs1.contains(gs2[k]));
            let a = choose|a: int| 0 <= a < gs1.len() && gs1[a] == gs2[k];
            to_multiset_remove(gs1, a);
            assert(gs1.remove(a).to_multiset().count(gs2[k]) >= 1);
            to_multiset_contains(gs1.remove(a), gs2[k]);
            assert(gs1.remove(a).contains(gs2[k]));
            let b0 = choose|b0: int|
                0 <= b0 < gs1.remove(a).len() && gs1.remove(a)[b0] == gs2[k];
            let b = if b0 < a {
                b0
            } else {
                b0 + 1
            };
            assert(gs1[b] == gs2[k]);
            assert(a != b);
            assert(gs1[a].len() == bound || gs1[b].len() == bound);
        } else {
            to_multiset_contains(gs2, gs2[k]);
            to_multiset_contains(gs2, gs2[l]);
            to_multiset_contains(gs1, gs2[k]);
            to_multiset_contains(gs1, gs2[l]);
            assert(gs2.contains(gs2[k]));
            assert(gs2.contains(gs2[l]));
            assert(gs1.contains(gs2[k]));
            assert(gs1.contains(gs2[l]));
            let a = choose|a: int| 0 <= a < gs1.len() && gs1[a] == gs2[k];
            let b = choose|b: int| 0 <= b < gs1.len() && gs1[b] == gs2[l];
            assert(a != b);
            assert(gs1[a].len() == bound || gs1[b].len() == bound);
        }
    }
}


/// The partial-spend guarantee in one statement. A greedy policy under
/// partial-spend avoidance feeds the driver its required groups followed by
/// some rearrangement of a grouping of the optional UTXOs. That
/// rearrangement is itself a valid grouping — script-uniform groups of at
/// most the size cap, each one run of its script's UTXOs in input order,
/// with at most one non-full group per script — and the driver spends each
/// group entirely or not at all, every required group among the spent ones.
/// So for every address, either all of its pooled UTXOs are spent or none,
/// up to the group-size cap.
pub proof fn lemma_partial_spend_selection(
    optional: Seq<WeightedUtxoV>,
    grouping: Seq<Seq<WeightedUtxoV>>,
    opt_sorted: Seq<Seq<WeightedUtxoV>>,
    req_groups: Seq<Seq<WeightedUtxoV>>,
    fee_rate: u64,
    target_amount: u64,
)
    requires
        crate::grouping::group_post(optional, true, grouping),
        opt_sorted.to_multiset() == grouping.to_multiset(),
    ensures
        crate::grouping::group_post(optional, true, opt_sorted),
        ({
            let arrangement = crate::policies::tag_seq(req_groups, true)
                + crate::policies::tag_seq(opt_sorted, false);
            exists|picks: Seq<bool>|
                {
                    &&& picks.len() == arrangement.len()
                    &&& driver_chosen(arrangement, fee_rate, target_amount)
                        == #[trigger] apply_picks(arrangement, picks)
                    &&& forall|j: int|
                        0 <= j < arrangement.len() && #[trigger] arrangement[j].0 ==> picks[j]
                }
        }),
{
    lemma_group_post_permuted(optional, grouping, opt_sorted);
    let arrangement = crate::policies::tag_seq(req_groups, true) + crate::policies::tag_seq(
        opt_sorted,
        false,
    );
    lemma_selection_spends_whole_groups(arrangement, fee_rate, target_amount);
}

} // verus!
