//! The shared greedy driver: walk groups in priority order, include a group
//! when it is required or when the selection does not yet cover the target
//! plus the fees accrued so far, then decide what to do with the leftover.

use vstd::prelude::*;

use vstd::seq_lib::lemma_multiset_commutative;

use crate::change::decide_change;
use crate::change::change_fee_fits;
use crate::change::spec_decide_change;
use crate::fees::fee_of;
use crate::fees::fees_fit;
use crate::fees::input_fee;
use crate::fees::sum_fee;
use crate::fees::sum_value;
use crate::fees::value_of;
use crate::selection::CoinSelectionResult;
use crate::selection::InsufficientFunds;
use crate::sums::lemma_seq_sum_nonneg;
use crate::sums::lemma_seq_sum_push;
use crate::sums::lemma_seq_sum_subset;
use crate::types::wu_views;
use crate::types::Utxo;
use crate::types::WeightedUtxo;
use crate::types::WeightedUtxoV;

verus! {

/// A group offered to the driver: whether it must be spent, and its UTXOs.
pub type TaggedGroup = (bool, Vec<WeightedUtxo>);

/// The views of a sequence of tagged groups.
pub open spec fn tagged_views(s: Seq<TaggedGroup>) -> Seq<(bool, Seq<WeightedUtxoV>)> {
    s.map_values(|t: TaggedGroup| (t.0, wu_views(t.1@)))
}

/// The groups of a tagged sequence, without their tags.
pub open spec fn untag(groups: Seq<(bool, Seq<WeightedUtxoV>)>) -> Seq<Seq<WeightedUtxoV>> {
    groups.map_values(|t: (bool, Seq<WeightedUtxoV>)| t.1)
}

/// Which groups the driver includes: a required group always, any other
/// group exactly when what is already accumulated in `acc` does not cover
/// the target plus its own fees.
pub open spec fn spec_picks(
    groups: Seq<(bool, Seq<WeightedUtxoV>)>,
    fee_rate: u64,
    target_amount: u64,
    acc: Seq<WeightedUtxoV>,
) -> Seq<bool>
    decreases groups.len(),
{
    if groups.len() == 0 {
        Seq::empty()
    } else {
        let takes = groups.first().0 || sum_value(acc) < target_amount + sum_fee(acc, fee_rate);
        let acc2 = if takes {
            acc + groups.first().1
        } else {
            acc
        };
        seq![takes] + spec_picks(groups.drop_first(), fee_rate, target_amount, acc2)
    }
}

/// The UTXOs of the groups marked by `picks`, in order.
pub open spec fn apply_picks(
    groups: Seq<(bool, Seq<WeightedUtxoV>)>,
    picks: Seq<bool>,
) -> Seq<WeightedUtxoV>
    decreases groups.len(),
{
    if groups.len() == 0 || picks.len() == 0 {
        Seq::empty()
    } else {
        let head: Seq<WeightedUtxoV> = if picks.first() {
            groups.first().1
        } else {
            Seq::empty()
        };
        head + apply_picks(groups.drop_first(), picks.drop_first())
    }
}

/// The UTXOs the driver chooses from `groups`.
pub open spec fn driver_chosen(
    groups: Seq<(bool, Seq<WeightedUtxoV>)>,
    fee_rate: u64,
    target_amount: u64,
) -> Seq<WeightedUtxoV> {
    apply_picks(groups, spec_picks(groups, fee_rate, target_amount, Seq::empty()))
}

/// What the driver returns: with `chosen` the UTXOs of the included groups,
/// it succeeds exactly when their value covers the target plus their input
/// fees, reporting the change decision over the leftover; otherwise it
/// reports the amount needed and the amount those UTXOs hold.
pub open spec fn driver_post(
    groups: Seq<(bool, Seq<WeightedUtxoV>)>,
    fee_rate: u64,
    target_amount: u64,
    drain_script: Seq<u8>,
    r: Result<CoinSelectionResult, InsufficientFunds>,
) -> bool {
    let chosen = driver_chosen(groups, fee_rate, target_amount);
    let fee = sum_fee(chosen, fee_rate);
    let val = sum_value(chosen);
    match r {
        Ok(res) => {
            &&& val >= target_amount + fee
            &&& res.chosen@ == chosen
            &&& crate::types::utxo_views(res.selected@) == chosen.map_values(
                |w: WeightedUtxoV| w.utxo,
            )
            &&& res.fee_amount == fee
            &&& res.excess == spec_decide_change(
                (val - (target_amount + fee)) as u64,
                fee_rate,
                drain_script,
            )
        },
        Err(e) => {
            &&& val < target_amount + fee
            &&& e.needed == target_amount + fee
            &&& e.available == val
        },
    }
}

/// The driver decides one pick per group.
pub proof fn lemma_picks_len(
    groups: Seq<(bool, Seq<WeightedUtxoV>)>,
    fee_rate: u64,
    target_amount: u64,
    acc: Seq<WeightedUtxoV>,
)
    ensures
        spec_picks(groups, fee_rate, target_amount, acc).len() == groups.len(),
    decreases groups.len(),
{
    if groups.len() > 0 {
        let takes = groups.first().0 || sum_value(acc) < target_amount + sum_fee(acc, fee_rate);
        let acc2 = if takes {
            acc + groups.first().1
        } else {
            acc
        };
        lemma_picks_len(groups.drop_first(), fee_rate, target_amount, acc2);
    }
}

/// Every required group is picked.
pub proof fn lemma_picks_required(
    groups: Seq<(bool, Seq<WeightedUtxoV>)>,
    fee_rate: u64,
    target_amount: u64,
    acc: Seq<WeightedUtxoV>,
)
    ensures
        forall|j: int| 0 <= j < groups.len() && #[trigger] groups[j].0 ==> spec_picks(
            groups,
            fee_rate,
            target_amount,
            acc,
        )[j],
    decreases groups.len(),
{
    lemma_picks_len(groups, fee_rate, target_amount, acc);
    if groups.len() > 0 {
        let takes = groups.first().0 || sum_value(acc) < target_amount + sum_fee(acc, fee_rate);
        let acc2 = if takes {
            acc + groups.first().1
        } else {
            acc
        };
        lemma_picks_required(groups.drop_first(), fee_rate, target_amount, acc2);
        lemma_picks_len(groups.drop_first(), fee_rate, target_amount, acc2);
        let picks = spec_picks(groups, fee_rate, target_amount, acc);
        let rest = spec_picks(groups.drop_first(), fee_rate, target_amount, acc2);
        assert forall|j: int| 0 <= j < groups.len() && #[trigger] groups[j].0 implies picks[j]
            by {
            if j > 0 {
                assert(groups.drop_first()[j - 1] == groups[j]);
                assert(picks[j] == rest[j - 1]);
            }
        }
    }
}

/// The UTXOs of the groups with `tag` set, in order.
pub open spec fn tag_flatten(
    groups: Seq<(bool, Seq<WeightedUtxoV>)>,
    tag: bool,
) -> Seq<WeightedUtxoV>
    decreases groups.len(),
{
    if groups.len() == 0 {
        Seq::empty()
    } else {
        let head: Seq<WeightedUtxoV> = if groups.first().0 == tag {
            groups.first().1
        } else {
            Seq::empty()
        };
        head + tag_flatten(groups.drop_first(), tag)
    }
}

/// What is chosen holds every UTXO of every picked group.
pub proof fn lemma_apply_picks_superset(
    groups: Seq<(bool, Seq<WeightedUtxoV>)>,
    picks: Seq<bool>,
)
    requires
        picks.len() == groups.len(),
        forall|j: int| 0 <= j < groups.len() && #[trigger] groups[j].0 ==> picks[j],
    ensures
        tag_flatten(groups, true).to_multiset().subset_of(
            apply_picks(groups, picks).to_multiset(),
        ),
    decreases groups.len(),
{
    broadcast use vstd::multiset::group_multiset_axioms;

    if groups.len() == 0 {
    } else {
        assert forall|j: int| 0 <= j < groups.drop_first().len() && #[trigger] groups.drop_first()[
        j].0 implies picks.drop_first()[j] by {
            assert(groups.drop_first()[j] == groups[j + 1]);
            assert(picks.drop_first()[j] == picks[j + 1]);
        }
        lemma_apply_picks_superset(groups.drop_first(), picks.drop_first());
        let head_t: Seq<WeightedUtxoV> = if groups.first().0 {
            groups.first().1
        } else {
            Seq::empty()
        };
        let head_p: Seq<WeightedUtxoV> = if picks.first() {
            groups.first().1
        } else {
            Seq::empty()
        };
        lemma_multiset_commutative(head_t, tag_flatten(groups.drop_first(), true));
        lemma_multiset_commutative(head_p, apply_picks(groups.drop_first(), picks.drop_first()));
        assert(Seq::<WeightedUtxoV>::empty().to_multiset().len() == 0) by {
            vstd::seq_lib::to_multiset_len(Seq::<WeightedUtxoV>::empty());
        }
        vstd::multiset::lemma_multiset_empty_len(Seq::<WeightedUtxoV>::empty().to_multiset());
    }
}

/// What is chosen holds nothing beyond the groups' UTXOs.
pub proof fn lemma_apply_picks_subset(groups: Seq<(bool, Seq<WeightedUtxoV>)>, picks: Seq<bool>)
    ensures
        apply_picks(groups, picks).to_multiset().subset_of(
            untag(groups).flatten().to_multiset(),
        ),
    decreases groups.len(),
{
    broadcast use vstd::multiset::group_multiset_axioms;

    if groups.len() == 0 || picks.len() == 0 {
        assert(apply_picks(groups, picks).to_multiset().len() == 0) by {
            vstd::seq_lib::to_multiset_len(Seq::<WeightedUtxoV>::empty());
        }
    } else {
        lemma_apply_picks_subset(groups.drop_first(), picks.drop_first());
        let head_p: Seq<WeightedUtxoV> = if picks.first() {
            groups.first().1
        } else {
            Seq::empty()
        };
        lemma_multiset_commutative(head_p, apply_picks(groups.drop_first(), picks.drop_first()));
        assert(untag(groups).drop_first() =~= untag(groups.drop_first()));
        assert(untag(groups).first() == groups.first().1);
        assert(untag(groups).flatten() == groups.first().1 + untag(
            groups.drop_first(),
        ).flatten());
        lemma_multiset_commutative(groups.first().1, untag(groups.drop_first()).flatten());
        assert(Seq::<WeightedUtxoV>::empty().to_multiset().len() == 0) by {
            vstd::seq_lib::to_multiset_len(Seq::<WeightedUtxoV>::empty());
        }
        vstd::multiset::lemma_multiset_empty_len(Seq::<WeightedUtxoV>::empty().to_multiset());
    }
}

/// Select UTXOs group by group, in the order given.
pub fn select_sorted_utxos(
    utxos: Vec<TaggedGroup>,
    fee_rate: u64,
    target_amount: u64,
    drain_script: &Vec<u8>,
) -> (r: Result<CoinSelectionResult, InsufficientFunds>)
    requires
        fees_fit(untag(tagged_views(utxos@)).flatten(), fee_rate),
        sum_value(untag(tagged_views(utxos@)).flatten()) + sum_fee(
            untag(tagged_views(utxos@)).flatten(),
            fee_rate,
        ) <= i64::MAX,
        target_amount <= i64::MAX,
        change_fee_fits(fee_rate, drain_script@),
    ensures
        driver_post(tagged_views(utxos@), fee_rate, target_amount, drain_script@, r),
{
    let ghost groups = tagged_views(utxos@);
    let ghost flat = untag(groups).flatten();
    proof {
        crate::fees::lemma_fees_nonneg(flat, fee_rate);
        lemma_seq_sum_nonneg(flat, fee_of(fee_rate));
        lemma_seq_sum_nonneg(flat, |w: WeightedUtxoV| value_of(w));
    }
    let mut selected: Vec<Utxo> = Vec::new();
    let mut selected_amount: u64 = 0;
    let mut fee_amount: u64 = 0;
    let ghost mut acc: Seq<WeightedUtxoV> = Seq::empty();
    let mut i: usize = 0;
    proof {
        broadcast use vstd::multiset::group_multiset_axioms;

        vstd::seq_lib::to_multiset_len(acc);
        vstd::multiset::lemma_multiset_empty_len(acc.to_multiset());
        assert(groups.skip(0) =~= groups);
        assert(apply_picks(groups, spec_picks(groups, fee_rate, target_amount, Seq::empty()))
            == acc + apply_picks(
            groups.skip(0),
            spec_picks(groups.skip(0), fee_rate, target_amount, acc),
        )) by {
            assert(acc + apply_picks(
                groups,
                spec_picks(groups, fee_rate, target_amount, Seq::empty()),
            ) =~= apply_picks(groups, spec_picks(groups, fee_rate, target_amount, Seq::empty())));
        }
    }
    while i < utxos.len()
        invariant
            0 <= i <= utxos.len(),
            groups == tagged_views(utxos@),
            flat == untag(groups).flatten(),
            fees_fit(flat, fee_rate),
            sum_value(flat) + sum_fee(flat, fee_rate) <= i64::MAX,
            target_amount <= i64::MAX,
            change_fee_fits(fee_rate, drain_script@),
            forall|k: int| 0 <= k < flat.len() ==> #[trigger] fee_of(fee_rate)(flat[k]) >= 0,
            forall|k: int| 0 <= k < flat.len() ==> #[trigger] value_of(flat[k]) >= 0,
            crate::types::utxo_views(selected@) == acc.map_values(|w: WeightedUtxoV| w.utxo),
            selected_amount == sum_value(acc),
            fee_amount == sum_fee(acc, fee_rate),
            acc.to_multiset().subset_of(untag(groups).take(i as int).flatten().to_multiset()),
            acc.to_multiset().subset_of(flat.to_multiset()),
            driver_chosen(groups, fee_rate, target_amount) == acc + apply_picks(
                groups.skip(i as int),
                spec_picks(groups.skip(i as int), fee_rate, target_amount, acc),
            ),
        decreases utxos.len() - i,
    {
        proof {
            lemma_seq_sum_subset(acc, flat, fee_of(fee_rate));
            lemma_seq_sum_subset(acc, flat, |w: WeightedUtxoV| value_of(w));
            lemma_seq_sum_nonneg(acc, fee_of(fee_rate));
            lemma_seq_sum_nonneg(acc, |w: WeightedUtxoV| value_of(w));
        }
        let must_use = utxos[i].0;
        let ghost rest = groups.skip(i as int);
        let ghost group_v = groups[i as int].1;
        proof {
            assert(rest.first() == groups[i as int]);
            assert(groups[i as int] == (utxos@[i as int].0, wu_views(utxos@[i as int].1@)));
            assert(rest.drop_first() =~= groups.skip(i + 1));
        }
        let takes = must_use || selected_amount < target_amount + fee_amount;
        proof {
            broadcast use vstd::multiset::group_multiset_axioms;

            // the first i+1 groups flatten to the first i plus this group,
            // and everything stays inside the whole pool
            assert(untag(groups).take(i + 1) =~= untag(groups).take(i as int).push(group_v));
            untag(groups).take(i as int).lemma_flatten_push(group_v);
            lemma_multiset_commutative(untag(groups).take(i as int).flatten(), group_v);
            assert(untag(groups) =~= untag(groups).take(i + 1) + untag(groups).skip(i + 1));
            vstd::seq_lib::lemma_flatten_concat(
                untag(groups).take(i + 1),
                untag(groups).skip(i + 1),
            );
            lemma_multiset_commutative(
                untag(groups).take(i + 1).flatten(),
                untag(groups).skip(i + 1).flatten(),
            );
            lemma_multiset_commutative(acc, group_v);
            assert((acc + group_v).to_multiset().subset_of(
                untag(groups).take(i + 1).flatten().to_multiset(),
            ));
            assert(untag(groups).take(i + 1).flatten().to_multiset().subset_of(
                flat.to_multiset(),
            ));
        }
        if takes {
            // include the whole group
            let ghost acc_before = acc;
            let mut m: usize = 0;
            while m < utxos[i].1.len()
                invariant
                    0 <= m <= utxos@[i as int].1@.len(),
                    0 <= i < utxos@.len(),
                    groups == tagged_views(utxos@),
                    flat == untag(groups).flatten(),
                    fees_fit(flat, fee_rate),
                    sum_value(flat) + sum_fee(flat, fee_rate) <= i64::MAX,
                    forall|k: int| 0 <= k < flat.len() ==> #[trigger] fee_of(fee_rate)(
                        flat[k],
                    ) >= 0,
                    forall|k: int| 0 <= k < flat.len() ==> #[trigger] value_of(flat[k]) >= 0,
                    group_v == groups[i as int].1,
                    group_v.len() == utxos@[i as int].1@.len(),
                    acc == acc_before + group_v.take(m as int),
                    crate::types::utxo_views(selected@) == acc.map_values(
                        |w: WeightedUtxoV| w.utxo,
                    ),
                    selected_amount == sum_value(acc),
                    fee_amount == sum_fee(acc, fee_rate),
                    acc.to_multiset().subset_of(flat.to_multiset()),
                    (acc_before + group_v).to_multiset().subset_of(flat.to_multiset()),
                decreases utxos@[i as int].1@.len() - m,
            {
                let w = utxos[i].1[m].copied();
                let ghost wv = w@;
                proof {
                    assert(wv == group_v[m as int]);
                    assert(acc.push(wv) =~= acc_before + group_v.take(m + 1));
                    lemma_seq_sum_push(acc, wv, fee_of(fee_rate));
                    lemma_seq_sum_push(acc, wv, |x: WeightedUtxoV| value_of(x));
                    // the grown accumulator still sits inside the flat pool
                    vstd::seq_lib::to_multiset_build(acc, wv);
                    assert(acc.push(wv).to_multiset().subset_of(
                        (acc_before + group_v).to_multiset(),
                    )) by {
                        broadcast use vstd::multiset::group_multiset_axioms;

                        lemma_multiset_commutative(acc_before, group_v);
                        lemma_multiset_commutative(acc_before, group_v.take(m as int));
                        vstd::seq_lib::to_multiset_build(group_v.take(m as int), wv);
                        assert(group_v.take(m as int).push(wv) =~= group_v.take(m + 1));
                        assert forall|x: WeightedUtxoV| #[trigger] acc.push(
                            wv,
                        ).to_multiset().count(x) <= (acc_before + group_v).to_multiset().count(
                            x,
                        ) by {
                            lemma_take_count_le(group_v, m + 1, x);
                        }
                    }
                    // bounds for the additions below
                    lemma_seq_sum_subset(acc.push(wv), flat, fee_of(fee_rate));
                    lemma_seq_sum_subset(acc.push(wv), flat, |x: WeightedUtxoV| value_of(x));
                    lemma_seq_sum_nonneg(acc, fee_of(fee_rate));
                    lemma_seq_sum_nonneg(acc, |x: WeightedUtxoV| value_of(x));
                    assert(fees_fit(flat, fee_rate));
                    assert(flat.to_multiset().count(wv) > 0) by {
                        broadcast use vstd::multiset::group_multiset_axioms;

                        vstd::seq_lib::to_multiset_build(acc, wv);
                    }
                    vstd::seq_lib::to_multiset_contains(flat, wv);
                    assert(flat.contains(wv));
                    let fi = choose|fi: int| 0 <= fi < flat.len() && flat[fi] == wv;
                    assert(crate::fees::input_fee_fits(fee_rate, flat[fi].satisfaction_weight));
                }
                let fee = input_fee(fee_rate, w.satisfaction_weight);
                fee_amount = fee_amount + fee;
                selected_amount = selected_amount + w.utxo.txout().value;
                let ghost prev_sel = selected@;
                let ghost acc_prev = acc;
                selected.push(w.utxo);
                proof {
                    acc = acc.push(wv);
                    assert(crate::types::utxo_views(prev_sel).len() == prev_sel.len());
                    assert(acc_prev.map_values(|x: WeightedUtxoV| x.utxo).len()
                        == acc_prev.len());
                    assert forall|x: int| 0 <= x < selected@.len() implies
                        crate::types::utxo_views(selected@)[x] == acc.map_values(
                        |t: WeightedUtxoV| t.utxo,
                    )[x] by {
                        if x < prev_sel.len() {
                            assert(selected@[x] == prev_sel[x]);
                            assert(crate::types::utxo_views(prev_sel)[x]
                                == acc_prev.map_values(|t: WeightedUtxoV| t.utxo)[x]);
                        } else {
                            assert(selected@[x]@ == wv.utxo);
                        }
                    }
                    assert(crate::types::utxo_views(selected@) =~= acc.map_values(
                        |x: WeightedUtxoV| x.utxo,
                    ));
                }
                m = m + 1;
            }
            proof {
                assert(group_v.take(group_v.len() as int) =~= group_v);
                assert(acc == acc_before + group_v);
                // unfold the spec one step
                assert(spec_picks(rest, fee_rate, target_amount, acc_before) == seq![true]
                    + spec_picks(groups.skip(i + 1), fee_rate, target_amount, acc)) by {
                    assert(rest.first().0 == must_use);
                    assert(rest.first().1 == group_v);
                    assert(rest.drop_first() =~= groups.skip(i + 1));
                }
                assert(apply_picks(rest, spec_picks(rest, fee_rate, target_amount, acc_before))
                    == group_v + apply_picks(
                    groups.skip(i + 1),
                    spec_picks(groups.skip(i + 1), fee_rate, target_amount, acc),
                )) by {
                    let p = seq![true] + spec_picks(
                        groups.skip(i + 1),
                        fee_rate,
                        target_amount,
                        acc,
                    );
                    assert(p.first());
                    assert(p.drop_first() =~= spec_picks(
                        groups.skip(i + 1),
                        fee_rate,
                        target_amount,
                        acc,
                    ));
                    assert(rest.drop_first() =~= groups.skip(i + 1));
                }
                assert(acc_before + (group_v + apply_picks(
                    groups.skip(i + 1),
                    spec_picks(groups.skip(i + 1), fee_rate, target_amount, acc),
                )) =~= acc + apply_picks(
                    groups.skip(i + 1),
                    spec_picks(groups.skip(i + 1), fee_rate, target_amount, acc),
                ));
            }
        } else {
            proof {
                assert(spec_picks(rest, fee_rate, target_amount, acc) == seq![false]
                    + spec_picks(groups.skip(i + 1), fee_rate, target_amount, acc)) by {
                    assert(rest.first().0 == must_use);
                    assert(rest.drop_first() =~= groups.skip(i + 1));
                }
                assert(apply_picks(rest, spec_picks(rest, fee_rate, target_amount, acc))
                    == apply_picks(
                    groups.skip(i + 1),
                    spec_picks(groups.skip(i + 1), fee_rate, target_amount, acc),
                )) by {
                    let p = seq![false] + spec_picks(
                        groups.skip(i + 1),
                        fee_rate,
                        target_amount,
                        acc,
                    );
                    assert(!p.first());
                    assert(p.drop_first() =~= spec_picks(
                        groups.skip(i + 1),
                        fee_rate,
                        target_amount,
                        acc,
                    ));
                    assert(rest.drop_first() =~= groups.skip(i + 1));
                    assert(Seq::<WeightedUtxoV>::empty() + apply_picks(
                        rest.drop_first(),
                        p.drop_first(),
                    ) =~= apply_picks(rest.drop_first(), p.drop_first()));
                }
            }
        }
        i = i + 1;
    }
    proof {
        assert(groups.skip(groups.len() as int) =~= Seq::<(bool, Seq<WeightedUtxoV>)>::empty());
        assert(acc + apply_picks(
            groups.skip(groups.len() as int),
            spec_picks(groups.skip(groups.len() as int), fee_rate, target_amount, acc),
        ) =~= acc);
        assert(driver_chosen(groups, fee_rate, target_amount) == acc);
        lemma_seq_sum_nonneg(acc, fee_of(fee_rate));
        lemma_seq_sum_subset(acc, flat, fee_of(fee_rate));
        lemma_seq_sum_subset(acc, flat, |w: WeightedUtxoV| value_of(w));
        lemma_seq_sum_nonneg(acc, |w: WeightedUtxoV| value_of(w));
    }
    let amount_needed_with_fees = target_amount + fee_amount;
    if selected_amount < amount_needed_with_fees {
        return Err(InsufficientFunds {
            needed: amount_needed_with_fees,
            available: selected_amount,
        });
    }
    let remaining_amount = selected_amount - amount_needed_with_fees;
    let excess = decide_change(remaining_amount, fee_rate, drain_script);
    Ok(CoinSelectionResult { selected, fee_amount, excess, chosen: Ghost(acc) })
}

/// Counting within a prefix never exceeds counting within the whole.
proof fn lemma_take_count_le(s: Seq<WeightedUtxoV>, n: int, x: WeightedUtxoV)
    requires
        0 <= n <= s.len(),
    ensures
        s.take(n).to_multiset().count(x) <= s.to_multiset().count(x),
{
    broadcast use vstd::multiset::group_multiset_axioms;

    assert(s =~= s.take(n) + s.skip(n));
    lemma_multiset_commutative(s.take(n), s.skip(n));
}

} // verus!
