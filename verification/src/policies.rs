//! The greedy selection policies: largest first, oldest first, and a single
//! random draw. Each groups the UTXOs, orders the optional groups by its own
//! priority, and hands required groups followed by optional groups to the
//! shared driver.

use vstd::prelude::*;

use vstd::seq_lib::lemma_flatten_concat;
use vstd::seq_lib::lemma_multiset_commutative;
use vstd::seq_lib::to_multiset_contains;

use crate::driver::apply_picks;
use crate::driver::driver_chosen;
use crate::driver::driver_post;
use crate::driver::lemma_apply_picks_subset;
use crate::driver::lemma_apply_picks_superset;
use crate::driver::lemma_picks_len;
use crate::driver::lemma_picks_required;
use crate::driver::select_sorted_utxos;
use crate::driver::spec_picks;
use crate::driver::tag_flatten;
use crate::driver::tagged_views;
use crate::driver::untag;
use crate::driver::TaggedGroup;
use crate::fees::fee_of;
use crate::fees::fees_fit;
use crate::fees::sum_fee;
use crate::fees::sum_value;
use crate::fees::value_of;
use crate::grouping::group_post;
use crate::grouping::group_utxos_if_applies;
use crate::grouping::group_views;
use crate::selection::params_wf;
use crate::selection::CoinSelectionAlgorithm;
use crate::selection::universal_post;
use crate::selection::CoinSelectionParams;
use crate::selection::CoinSelectionParamsV;
use crate::selection::CoinSelectionResult;
use crate::selection::InsufficientFunds;
use crate::selection::UniformRandom;
use crate::sorting::reverse_vec;
use crate::sorting::unkey;
use crate::sorting::sort_by_key_asc;
use crate::sums::lemma_flatten_multiset;
use crate::sums::lemma_map_values_multiset;
use crate::sums::lemma_seq_sum_multiset;
use crate::sums::lemma_seq_sum_prefix_bound;
use crate::sums::seq_sum;
use crate::types::wu_views;
use crate::types::WeightedUtxo;
use crate::types::WeightedUtxoV;

verus! {

/// Groups tagged uniformly as required (`true`) or optional (`false`).
pub open spec fn tag_seq(gs: Seq<Seq<WeightedUtxoV>>, tag: bool) -> Seq<(bool, Seq<
    WeightedUtxoV,
>)> {
    gs.map_values(|g: Seq<WeightedUtxoV>| (tag, g))
}

proof fn lemma_untag_of_arrangement(req: Seq<Seq<WeightedUtxoV>>, opt: Seq<Seq<WeightedUtxoV>>)
    ensures
        untag(tag_seq(req, true) + tag_seq(opt, false)) == req + opt,
{
    assert(untag(tag_seq(req, true) + tag_seq(opt, false)) =~= req + opt);
}

proof fn lemma_tag_flatten_concat(
    a: Seq<(bool, Seq<WeightedUtxoV>)>,
    b: Seq<(bool, Seq<WeightedUtxoV>)>,
    tag: bool,
)
    ensures
        tag_flatten(a + b, tag) == tag_flatten(a, tag) + tag_flatten(b, tag),
    decreases a.len(),
{
    if a.len() == 0 {
        assert(a + b =~= b);
        assert(Seq::<WeightedUtxoV>::empty() + tag_flatten(b, tag) =~= tag_flatten(b, tag));
    } else {
        assert((a + b).drop_first() =~= a.drop_first() + b);
        assert((a + b).first() == a.first());
        lemma_tag_flatten_concat(a.drop_first(), b, tag);
        let head: Seq<WeightedUtxoV> = if a.first().0 == tag {
            a.first().1
        } else {
            Seq::empty()
        };
        assert(head + (tag_flatten(a.drop_first(), tag) + tag_flatten(b, tag)) =~= (head
            + tag_flatten(a.drop_first(), tag)) + tag_flatten(b, tag));
    }
}

proof fn lemma_tag_flatten_same(gs: Seq<Seq<WeightedUtxoV>>, tag: bool)
    ensures
        tag_flatten(tag_seq(gs, tag), tag) == gs.flatten(),
        tag_flatten(tag_seq(gs, !tag), tag) == Seq::<WeightedUtxoV>::empty(),
    decreases gs.len(),
{
    if gs.len() == 0 {
        assert(tag_flatten(tag_seq(gs, tag), tag) =~= gs.flatten());
        assert(tag_flatten(tag_seq(gs, !tag), tag) =~= Seq::<WeightedUtxoV>::empty());
    } else {
        lemma_tag_flatten_same(gs.drop_first(), tag);
        assert(tag_seq(gs, tag).drop_first() =~= tag_seq(gs.drop_first(), tag));
        assert(tag_seq(gs, !tag).drop_first() =~= tag_seq(gs.drop_first(), !tag));
        assert(tag_seq(gs, tag).first() == (tag, gs.first()));
        assert(tag_seq(gs, !tag).first() == (!tag, gs.first()));
        assert(gs.flatten() == gs.first() + gs.drop_first().flatten());
        assert(Seq::<WeightedUtxoV>::empty() + Seq::<WeightedUtxoV>::empty() =~= Seq::<
            WeightedUtxoV,
        >::empty());
    }
}

/// A pointwise machine-bound holds of any rearrangement of the same UTXOs.
proof fn lemma_fees_fit_multiset(a: Seq<WeightedUtxoV>, b: Seq<WeightedUtxoV>, fee_rate: u64)
    requires
        a.to_multiset() == b.to_multiset(),
        fees_fit(b, fee_rate),
    ensures
        fees_fit(a, fee_rate),
{
    broadcast use vstd::multiset::group_multiset_axioms;

    assert forall|i: int| 0 <= i < a.len() implies #[trigger] crate::fees::input_fee_fits(
        fee_rate,
        a[i].satisfaction_weight,
    ) by {
        to_multiset_contains(a, a[i]);
        to_multiset_contains(b, a[i]);
        assert(a.contains(a[i]));
        assert(b.contains(a[i]));
        let j = choose|j: int| 0 <= j < b.len() && b[j] == a[i];
        assert(crate::fees::input_fee_fits(fee_rate, b[j].satisfaction_weight));
    }
}

/// If the driver ends insufficient on groups whose required members all come
/// first, it has included every group.
proof fn lemma_insufficient_takes_all(
    groups: Seq<(bool, Seq<WeightedUtxoV>)>,
    fee_rate: u64,
    target_amount: u64,
    acc: Seq<WeightedUtxoV>,
)
    requires
        forall|j: int, k: int| 0 <= j < k < groups.len() && #[trigger] groups[k].0
            ==> #[trigger] groups[j].0,
    ensures
        ({
            let picks = spec_picks(groups, fee_rate, target_amount, acc);
            let chosen = acc + apply_picks(groups, picks);
            sum_value(chosen) < target_amount + sum_fee(chosen, fee_rate) ==> apply_picks(
                groups,
                picks,
            ) == untag(groups).flatten()
        }),
    decreases groups.len(),
{
    let picks = spec_picks(groups, fee_rate, target_amount, acc);
    let chosen = acc + apply_picks(groups, picks);
    if groups.len() == 0 {
        assert(untag(groups).flatten() =~= Seq::<WeightedUtxoV>::empty());
        assert(apply_picks(groups, picks) =~= Seq::<WeightedUtxoV>::empty());
    } else if sum_value(chosen) < target_amount + sum_fee(chosen, fee_rate) {
        let takes = groups.first().0 || sum_value(acc) < target_amount + sum_fee(acc, fee_rate);
        let g0 = groups.first().1;
        let rest = groups.drop_first();
        assert forall|j: int, k: int|
            0 <= j < k < rest.len() && #[trigger] rest[k].0 implies #[trigger] rest[j].0 by {
            assert(rest[k] == groups[k + 1]);
            assert(rest[j] == groups[j + 1]);
        }
        assert(untag(groups).first() == g0);
        assert(untag(groups).drop_first() =~= untag(rest));
        assert(untag(groups).flatten() == g0 + untag(rest).flatten());
        if takes {
            let acc2 = acc + g0;
            let picks_rest = spec_picks(rest, fee_rate, target_amount, acc2);
            assert(picks == seq![true] + picks_rest);
            assert(picks.first());
            assert(picks.drop_first() =~= picks_rest);
            assert(apply_picks(groups, picks) == g0 + apply_picks(rest, picks_rest));
            assert(acc2 + apply_picks(rest, picks_rest) =~= chosen);
            lemma_insufficient_takes_all(rest, fee_rate, target_amount, acc2);
            assert(apply_picks(groups, picks) =~= untag(groups).flatten());
        } else {
            // the first group is optional and the accumulator is already
            // sufficient; nothing afterwards is required, so the state
            // freezes and cannot end insufficient
            assert(!groups.first().0);
            assert forall|k: int| 0 <= k < rest.len() implies !(#[trigger] rest[k].0) by {
                if rest[k].0 {
                    assert(groups[k + 1].0);
                    assert(groups[0].0);
                }
            }
            let picks_rest = spec_picks(rest, fee_rate, target_amount, acc);
            assert(picks == seq![false] + picks_rest);
            assert(!picks.first());
            assert(picks.drop_first() =~= picks_rest);
            assert(apply_picks(groups, picks) == Seq::<WeightedUtxoV>::empty() + apply_picks(
                rest,
                picks_rest,
            ));
            lemma_picks_frozen(rest, fee_rate, target_amount, acc);
            assert(apply_picks(groups, picks) =~= Seq::<WeightedUtxoV>::empty());
            assert(chosen =~= acc);
            assert(false);
        }
    }
}

/// Once the accumulator covers the target and only optional groups remain,
/// nothing more is picked.
proof fn lemma_picks_frozen(
    groups: Seq<(bool, Seq<WeightedUtxoV>)>,
    fee_rate: u64,
    target_amount: u64,
    acc: Seq<WeightedUtxoV>,
)
    requires
        forall|k: int| 0 <= k < groups.len() ==> !(#[trigger] groups[k].0),
        sum_value(acc) >= target_amount + sum_fee(acc, fee_rate),
    ensures
        apply_picks(groups, spec_picks(groups, fee_rate, target_amount, acc)) == Seq::<
            WeightedUtxoV,
        >::empty(),
    decreases groups.len(),
{
    let picks = spec_picks(groups, fee_rate, target_amount, acc);
    if groups.len() == 0 {
        assert(apply_picks(groups, picks) =~= Seq::<WeightedUtxoV>::empty());
    } else {
        let rest = groups.drop_first();
        assert(!groups.first().0);
        assert forall|k: int| 0 <= k < rest.len() implies !(#[trigger] rest[k].0) by {
            assert(rest[k] == groups[k + 1]);
        }
        let picks_rest = spec_picks(rest, fee_rate, target_amount, acc);
        assert(picks == seq![false] + picks_rest);
        assert(!picks.first());
        assert(picks.drop_first() =~= picks_rest);
        lemma_picks_frozen(rest, fee_rate, target_amount, acc);
        assert(apply_picks(groups, picks) =~= Seq::<WeightedUtxoV>::empty());
    }
}

/// Tag required groups, append the optional groups, run the driver, and
/// carry its verdict back as the policy's guarantee.
fn run_driver(
    required_groups: Vec<Vec<WeightedUtxo>>,
    optional_groups: Vec<Vec<WeightedUtxo>>,
    fee_rate: u64,
    target_amount: u64,
    drain_script: &Vec<u8>,
    Ghost(p): Ghost<CoinSelectionParamsV>,
) -> (r: Result<CoinSelectionResult, InsufficientFunds>)
    requires
        params_wf(p),
        p.fee_rate == fee_rate,
        p.target_amount == target_amount,
        p.drain_script == drain_script@,
        group_views(required_groups@).flatten().to_multiset() == p.required.to_multiset(),
        group_views(optional_groups@).flatten().to_multiset() == p.optional.to_multiset(),
    ensures
        universal_post(p, r),
        driver_post(
            tag_seq(group_views(required_groups@), true) + tag_seq(
                group_views(optional_groups@),
                false,
            ),
            fee_rate,
            target_amount,
            drain_script@,
            r,
        ),
{
    let ghost req_gs = group_views(required_groups@);
    let ghost opt_gs = group_views(optional_groups@);
    let ghost arrangement = tag_seq(req_gs, true) + tag_seq(opt_gs, false);
    let ghost pool = p.required + p.optional;
    let mut tagged: Vec<TaggedGroup> = Vec::new();
    let mut required_groups = required_groups;
    let mut optional_groups = optional_groups;
    proof {
        assert(required_groups@ =~= required_groups@.take(required_groups@.len() as int));
    }
    let ghost req_orig = required_groups@;
    let ghost opt_orig = optional_groups@;
    while required_groups.len() > 0
        invariant
            required_groups@.len() <= req_orig.len(),
            required_groups@ == req_orig.skip(req_orig.len() - required_groups@.len()),
            tagged_views(tagged@) == tag_seq(
                group_views(req_orig.take(req_orig.len() - required_groups@.len())),
                true,
            ),
        decreases required_groups@.len(),
    {
        let ghost k = req_orig.len() - required_groups@.len();
        let g = required_groups.remove(0);
        proof {
            assert(req_orig.skip(k)[0] == req_orig[k]);
            assert(g == req_orig[k]);
            assert(required_groups@ =~= req_orig.skip(k + 1));
        }
        let ghost prev_t = tagged@;
        tagged.push((true, g));
        proof {
            let lhs = tagged_views(tagged@);
            let rhs = tag_seq(group_views(req_orig.take(k + 1)), true);
            assert(tagged_views(prev_t).len() == prev_t.len());
            assert(tag_seq(group_views(req_orig.take(k)), true).len() == k);
            assert forall|m: int| 0 <= m < lhs.len() implies lhs[m] == rhs[m] by {
                if m < prev_t.len() {
                    assert(tagged@[m] == prev_t[m]);
                    assert(lhs[m] == tagged_views(prev_t)[m]);
                    assert(tagged_views(prev_t)[m] == tag_seq(
                        group_views(req_orig.take(k)),
                        true,
                    )[m]);
                    assert(req_orig.take(k)[m] == req_orig.take(k + 1)[m]);
                } else {
                    assert(tagged@[m] == (true, g));
                    assert(rhs[m] == (true, wu_views(req_orig.take(k + 1)[m]@)));
                    assert(req_orig.take(k + 1)[m] == g);
                }
            }
            assert(lhs =~= rhs);
        }
    }
    proof {
        assert(req_orig.take(req_orig.len() as int) =~= req_orig);
    }
    while optional_groups.len() > 0
        invariant
            optional_groups@.len() <= opt_orig.len(),
            optional_groups@ == opt_orig.skip(opt_orig.len() - optional_groups@.len()),
            tagged_views(tagged@) == tag_seq(group_views(req_orig), true) + tag_seq(
                group_views(opt_orig.take(opt_orig.len() - optional_groups@.len())),
                false,
            ),
        decreases optional_groups@.len(),
    {
        let ghost k = opt_orig.len() - optional_groups@.len();
        let g = optional_groups.remove(0);
        proof {
            assert(opt_orig.skip(k)[0] == opt_orig[k]);
            assert(g == opt_orig[k]);
            assert(optional_groups@ =~= opt_orig.skip(k + 1));
        }
        let ghost prev_t = tagged@;
        tagged.push((false, g));
        proof {
            let lhs = tagged_views(tagged@);
            let rhs = tag_seq(group_views(req_orig), true) + tag_seq(
                group_views(opt_orig.take(k + 1)),
                false,
            );
            let prev_rhs = tag_seq(group_views(req_orig), true) + tag_seq(
                group_views(opt_orig.take(k)),
                false,
            );
            assert(tagged_views(prev_t).len() == prev_t.len());
            assert(prev_rhs.len() == req_orig.len() + k);
            assert forall|m: int| 0 <= m < lhs.len() implies lhs[m] == rhs[m] by {
                if m < prev_t.len() {
                    assert(tagged@[m] == prev_t[m]);
                    assert(lhs[m] == tagged_views(prev_t)[m]);
                    assert(tagged_views(prev_t)[m] == prev_rhs[m]);
                    if m < req_orig.len() {
                        assert(rhs[m] == prev_rhs[m]);
                    } else {
                        assert(prev_rhs[m] == (false, wu_views(opt_orig.take(k)[m
                            - req_orig.len()]@)));
                        assert(opt_orig.take(k)[m - req_orig.len()] == opt_orig.take(k + 1)[m
                            - req_orig.len()]);
                    }
                } else {
                    assert(tagged@[m] == (false, g));
                    assert(rhs[m] == (false, wu_views(opt_orig.take(k + 1)[m
                        - req_orig.len()]@)));
                    assert(opt_orig.take(k + 1)[m - req_orig.len()] == g);
                }
            }
            assert(lhs =~= rhs);
        }
    }
    proof {
        assert(opt_orig.take(opt_orig.len() as int) =~= opt_orig);
        assert(tagged_views(tagged@) == arrangement);
        // the arrangement's UTXOs are exactly the request's UTXOs
        lemma_untag_of_arrangement(req_gs, opt_gs);
        lemma_flatten_concat(req_gs, opt_gs);
        lemma_multiset_commutative(req_gs.flatten(), opt_gs.flatten());
        lemma_multiset_commutative(p.required, p.optional);
        assert(untag(arrangement).flatten().to_multiset() == pool.to_multiset()) by {
            broadcast use vstd::multiset::group_multiset_axioms;

            assert(untag(arrangement).flatten().to_multiset() =~= pool.to_multiset());
        }
        // the driver's preconditions transfer along that rearrangement
        lemma_fees_fit_multiset(untag(arrangement).flatten(), pool, fee_rate);
        lemma_seq_sum_multiset(untag(arrangement).flatten(), pool, fee_of(fee_rate));
        lemma_seq_sum_multiset(
            untag(arrangement).flatten(),
            pool,
            |w: WeightedUtxoV| value_of(w),
        );
    }
    let r = select_sorted_utxos(tagged, fee_rate, target_amount, drain_script);
    proof {
        lemma_driver_to_universal(arrangement, req_gs, opt_gs, p, r);
    }
    r
}

/// The driver's verdict on a required-then-optional arrangement satisfies
/// the common policy guarantee.
proof fn lemma_driver_to_universal(
    arrangement: Seq<(bool, Seq<WeightedUtxoV>)>,
    req_gs: Seq<Seq<WeightedUtxoV>>,
    opt_gs: Seq<Seq<WeightedUtxoV>>,
    p: CoinSelectionParamsV,
    r: Result<CoinSelectionResult, InsufficientFunds>,
)
    requires
        arrangement == tag_seq(req_gs, true) + tag_seq(opt_gs, false),
        req_gs.flatten().to_multiset() == p.required.to_multiset(),
        opt_gs.flatten().to_multiset() == p.optional.to_multiset(),
        driver_post(arrangement, p.fee_rate, p.target_amount, p.drain_script, r),
    ensures
        universal_post(p, r),
{
    broadcast use vstd::multiset::group_multiset_axioms;

    let pool = p.required + p.optional;
    let picks = spec_picks(arrangement, p.fee_rate, p.target_amount, Seq::empty());
    let chosen = driver_chosen(arrangement, p.fee_rate, p.target_amount);
    lemma_untag_of_arrangement(req_gs, opt_gs);
    lemma_flatten_concat(req_gs, opt_gs);
    lemma_multiset_commutative(req_gs.flatten(), opt_gs.flatten());
    lemma_multiset_commutative(p.required, p.optional);
    assert(untag(arrangement).flatten().to_multiset() =~= pool.to_multiset());
    match r {
        Ok(res) => {
            lemma_picks_len(arrangement, p.fee_rate, p.target_amount, Seq::empty());
            lemma_picks_required(arrangement, p.fee_rate, p.target_amount, Seq::empty());
            assert forall|j: int| 0 <= j < arrangement.len() && #[trigger] arrangement[j].0
                implies picks[j] by {}
            lemma_apply_picks_superset(arrangement, picks);
            lemma_apply_picks_subset(arrangement, picks);
            // the UTXOs tagged required are exactly the required UTXOs
            lemma_tag_flatten_concat(tag_seq(req_gs, true), tag_seq(opt_gs, false), true);
            lemma_tag_flatten_same(req_gs, true);
            lemma_tag_flatten_same(opt_gs, true);
            assert(tag_flatten(arrangement, true) =~= req_gs.flatten());
            assert(p.required.to_multiset().subset_of(chosen.to_multiset()));
            assert(chosen.to_multiset().subset_of(pool.to_multiset()));
        },
        Err(_) => {
            // the driver included everything and still fell short
            lemma_insufficient_takes_all(
                arrangement,
                p.fee_rate,
                p.target_amount,
                Seq::empty(),
            );
            assert forall|j: int, k: int|
                0 <= j < k < arrangement.len() && #[trigger] arrangement[k].0 implies #[trigger]
                arrangement[j].0 by {
                if k < req_gs.len() {
                } else {
                    assert(arrangement[k] == (false, opt_gs[k - req_gs.len()]));
                }
                if j < req_gs.len() {
                    assert(arrangement[j] == (true, req_gs[j]));
                }
            }
            let chosen0 = Seq::<WeightedUtxoV>::empty() + apply_picks(arrangement, picks);
            assert(chosen0 =~= chosen);
            assert(sum_value(chosen) < p.target_amount + sum_fee(chosen, p.fee_rate));
            assert(chosen == untag(arrangement).flatten());
            lemma_seq_sum_multiset(chosen, pool, fee_of(p.fee_rate));
            lemma_seq_sum_multiset(chosen, pool, |w: WeightedUtxoV| value_of(w));
        },
    }
}

/// Sum of a group's values, as a sort key.
fn group_value_key(group: &Vec<WeightedUtxo>) -> (k: u64)
    requires
        sum_value(wu_views(group@)) <= u64::MAX,
    ensures
        k == sum_value(wu_views(group@)),
{
    let ghost views = wu_views(group@);
    proof {
        crate::fees::lemma_fees_nonneg(views, 0);
    }
    let mut total: u64 = 0;
    let mut i: usize = 0;
    while i < group.len()
        invariant
            0 <= i <= group.len(),
            views == wu_views(group@),
            sum_value(views) <= u64::MAX,
            forall|k: int| 0 <= k < views.len() ==> #[trigger] value_of(views[k]) >= 0,
            total == seq_sum(views.take(i as int), |w: WeightedUtxoV| value_of(w)),
        decreases group.len() - i,
    {
        proof {
            crate::sums::lemma_seq_sum_push(
                views.take(i as int),
                views[i as int],
                |w: WeightedUtxoV| value_of(w),
            );
            assert(views.take(i + 1) =~= views.take(i as int).push(views[i as int]));
            lemma_seq_sum_prefix_bound(views, i + 1, |w: WeightedUtxoV| value_of(w));
        }
        total = total + group[i].utxo.txout().value;
        i = i + 1;
    }
    proof {
        assert(views.take(views.len() as int) =~= views);
    }
    total
}

/// Tag every group with the given key computation, preserving the groups.
fn keyed_by_value(groups: Vec<Vec<WeightedUtxo>>) -> (r: Vec<(u128, Vec<WeightedUtxo>)>)
    requires
        forall|k: int| 0 <= k < groups@.len() ==> #[trigger] sum_value(group_views(groups@)[k])
            <= u64::MAX,
    ensures
        r@.len() == groups@.len(),
        forall|k: int| 0 <= k < r@.len() ==> #[trigger] r@[k].1 == groups@[k],
        forall|k: int| 0 <= k < r@.len() ==> #[trigger] r@[k].0 == sum_value(
            group_views(groups@)[k],
        ),
{
    let ghost orig = groups@;
    let mut groups = groups;
    let mut r: Vec<(u128, Vec<WeightedUtxo>)> = Vec::new();
    while groups.len() > 0
        invariant
            groups@.len() <= orig.len(),
            groups@ == orig.skip(orig.len() - groups@.len()),
            forall|k: int| 0 <= k < orig.len() ==> #[trigger] sum_value(group_views(orig)[k])
                <= u64::MAX,
            r@.len() == orig.len() - groups@.len(),
            forall|k: int| 0 <= k < r@.len() ==> #[trigger] r@[k].1 == orig[k],
            forall|k: int| 0 <= k < r@.len() ==> #[trigger] r@[k].0 == sum_value(
                group_views(orig)[k],
            ),
        decreases groups@.len(),
    {
        let ghost k = orig.len() - groups@.len();
        let g = groups.remove(0);
        proof {
            assert(orig.skip(k)[0] == orig[k]);
            assert(g == orig[k]);
            assert(groups@ =~= orig.skip(k + 1));
            assert(group_views(orig)[k] == wu_views(g@));
        }
        let key = group_value_key(&g);
        r.push((key as u128, g));
    }
    r
}


/// Every group's value is at most the total value of the UTXOs the groups
/// hold, so each group's sort key fits the key type.
proof fn lemma_group_value_keys_fit(gs: Seq<Seq<WeightedUtxoV>>, pool: Seq<WeightedUtxoV>)
    requires
        gs.flatten().to_multiset() == pool.to_multiset(),
        sum_value(pool) <= u64::MAX,
    ensures
        forall|k: int| 0 <= k < gs.len() ==> #[trigger] sum_value(gs[k]) <= u64::MAX,
{
    broadcast use vstd::multiset::group_multiset_axioms;

    crate::fees::lemma_fees_nonneg(gs.flatten(), 0);
    lemma_seq_sum_multiset(gs.flatten(), pool, |w: WeightedUtxoV| value_of(w));
    assert forall|k: int| 0 <= k < gs.len() implies #[trigger] sum_value(gs[k]) <= u64::MAX by {
        crate::sums::lemma_flatten_remove(gs, k);
        assert(gs[k].to_multiset().subset_of(gs.flatten().to_multiset()));
        crate::sums::lemma_seq_sum_subset(gs[k], gs.flatten(), |w: WeightedUtxoV| value_of(w));
    }
}

/// The total value of a request's optional UTXOs fits the key type.
proof fn lemma_pool_value_bounded(p: CoinSelectionParamsV)
    requires
        params_wf(p),
    ensures
        sum_value(p.optional) <= i64::MAX,
        sum_value(p.required) <= i64::MAX,
{
    let pool = p.required + p.optional;
    crate::sums::lemma_seq_sum_concat(p.required, p.optional, |w: WeightedUtxoV| value_of(w));
    crate::fees::lemma_fees_nonneg(p.required, p.fee_rate);
    crate::fees::lemma_fees_nonneg(p.optional, p.fee_rate);
    crate::fees::lemma_fees_nonneg(pool, p.fee_rate);
    crate::sums::lemma_seq_sum_nonneg(p.required, |w: WeightedUtxoV| value_of(w));
    crate::sums::lemma_seq_sum_nonneg(p.optional, |w: WeightedUtxoV| value_of(w));
    crate::sums::lemma_seq_sum_nonneg(pool, fee_of(p.fee_rate));
}

/// Groups in weakly descending order of total value.
pub open spec fn sorted_by_value_desc(gs: Seq<Seq<WeightedUtxoV>>) -> bool {
    forall|a: int, b: int| 0 <= a < b < gs.len() ==> sum_value(#[trigger] gs[a]) >= sum_value(
        #[trigger] gs[b],
    )
}

/// `sorted` rearranges `gs` by the index map `perm` into weakly descending
/// total value; among equal values, later input groups come first.
pub open spec fn value_desc_perm(
    gs: Seq<Seq<WeightedUtxoV>>,
    sorted: Seq<Seq<WeightedUtxoV>>,
    perm: Seq<int>,
) -> bool {
    &&& perm.len() == gs.len()
    &&& sorted.len() == gs.len()
    &&& forall|m: int| 0 <= m < perm.len() ==> 0 <= #[trigger] perm[m] < gs.len()
    &&& forall|m: int| 0 <= m < perm.len() ==> sorted[m] == gs[#[trigger] perm[m]]
    &&& forall|m: int, n: int| 0 <= m < n < perm.len() ==> #[trigger] perm[m] != #[trigger]
        perm[n]
    &&& forall|m: int, n: int|
        0 <= m < n < sorted.len() && sum_value(#[trigger] sorted[m]) == sum_value(
            #[trigger] sorted[n],
        ) ==> perm[m] > perm[n]
}

/// Some such rearrangement exists: the descending value order and its
/// tie-break are fixed.
pub open spec fn stable_by_value_desc(
    gs: Seq<Seq<WeightedUtxoV>>,
    sorted: Seq<Seq<WeightedUtxoV>>,
) -> bool {
    exists|perm: Seq<int>| #[trigger] value_desc_perm(gs, sorted, perm)
}

/// What selecting largest-first returns: required groups first, then some
/// grouping of the optional UTXOs in descending order of group value, fed to
/// the shared driver.
pub open spec fn largest_first_post(
    p: CoinSelectionParamsV,
    r: Result<CoinSelectionResult, InsufficientFunds>,
) -> bool {
    exists|req_g: Seq<Seq<WeightedUtxoV>>, opt_sorted: Seq<Seq<WeightedUtxoV>>|
        {
            &&& group_post(p.required, p.avoid_partial_spends, req_g)
            &&& (exists|opt_g: Seq<Seq<WeightedUtxoV>>|
                #[trigger] group_post(p.optional, p.avoid_partial_spends, opt_g)
                    && opt_sorted.to_multiset() == opt_g.to_multiset()
                    && stable_by_value_desc(opt_g, opt_sorted))
            &&& sorted_by_value_desc(opt_sorted)
            &&& #[trigger] driver_post(
                tag_seq(req_g, true) + tag_seq(opt_sorted, false),
                p.fee_rate,
                p.target_amount,
                p.drain_script,
                r,
            )
        }
}

/// Select the largest groups first: sort the optional groups by total value
/// and take from the top until the target is covered.
pub fn select_largest_first(params: CoinSelectionParams) -> (r: Result<
    CoinSelectionResult,
    InsufficientFunds,
>)
    requires
        params_wf(params@),
    ensures
        universal_post(params@, r),
        largest_first_post(params@, r),
{
    let ghost p = params@;
    let CoinSelectionParams {
        required_utxos,
        optional_utxos,
        fee_rate,
        target_amount,
        drain_script,
        avoid_partial_spends,
    } = params;
    let required_groups = group_utxos_if_applies(required_utxos, avoid_partial_spends);
    let optional_groups = group_utxos_if_applies(optional_utxos, avoid_partial_spends);
    let ghost req_g = group_views(required_groups@);
    let ghost opt_g = group_views(optional_groups@);
    proof {
        lemma_pool_value_bounded(p);
        lemma_group_value_keys_fit(opt_g, p.optional);
    }
    let keyed = keyed_by_value(optional_groups);
    let ghost keyed0 = keyed@;
    let sorted = sort_by_key_asc(keyed);
    let ghost sorted0 = sorted@;
    let rev = reverse_vec(sorted);
    let ghost rev0 = rev@;
    let optional_sorted = unkey(rev);
    let ghost opt_sorted = group_views(optional_sorted@);
    proof {
        broadcast use vstd::multiset::group_multiset_axioms;

        // the sorted groups are the optional groups, rearranged
        let second = |t: (u128, Vec<WeightedUtxo>)| t.1;
        assert(keyed0.map_values(second) =~= optional_groups@);
        sorted0.lemma_reverse_to_multiset();
        assert(rev0.to_multiset() == keyed0.to_multiset());
        lemma_map_values_multiset(rev0, keyed0, second);
        assert(optional_sorted@.to_multiset() == optional_groups@.to_multiset());
        lemma_map_values_multiset(
            optional_sorted@,
            optional_groups@,
            |g: Vec<WeightedUtxo>| wu_views(g@),
        );
        assert(opt_sorted.to_multiset() == opt_g.to_multiset());
        lemma_flatten_multiset(opt_sorted, opt_g);
        // every key tags its own group's value, in the sorted order too
        assert forall|m: int| 0 <= m < sorted0.len() implies #[trigger] sorted0[m].0
            == sum_value(wu_views(sorted0[m].1@)) by {
            to_multiset_contains(sorted0, sorted0[m]);
            to_multiset_contains(keyed0, sorted0[m]);
            assert(sorted0.contains(sorted0[m]));
            assert(keyed0.contains(sorted0[m]));
            let j = choose|j: int| 0 <= j < keyed0.len() && keyed0[j] == sorted0[m];
            assert(keyed0[j].0 == sum_value(group_views(optional_groups@)[j]));
            assert(group_views(optional_groups@)[j] == wu_views(optional_groups@[j]@));
            assert(keyed0[j].1 == optional_groups@[j]);
        }
        // descending by value after the reversal
        assert forall|a: int, b: int| 0 <= a < b < opt_sorted.len() implies sum_value(
            #[trigger] opt_sorted[a],
        ) >= sum_value(#[trigger] opt_sorted[b]) by {
            let n = rev0.len();
            assert(rev0[a] == sorted0[n - 1 - a]);
            assert(rev0[b] == sorted0[n - 1 - b]);
            assert(sorted0[n - 1 - b].0 <= sorted0[n - 1 - a].0);
            assert(opt_sorted[a] == wu_views(optional_sorted@[a]@));
            assert(optional_sorted@[a] == rev0[a].1);
            assert(optional_sorted@[b] == rev0[b].1);
        }
        assert(sorted_by_value_desc(opt_sorted));
        // the reversal of the stable ascending sort fixes the tie-break:
        // among equal values, later input groups come first
        crate::sorting::lemma_stable_sort_perm(keyed0);
        let perm_t = choose|perm_t: Seq<int>| #[trigger] crate::sorting::stable_asc_perm(
            keyed0,
            sorted0,
            perm_t,
        );
        let n = keyed0.len() as int;
        let pv = Seq::<int>::new(n as nat, |m: int| perm_t[n - 1 - m]);
        assert(value_desc_perm(opt_g, opt_sorted, pv)) by {
            assert(opt_g.len() == n);
            assert(opt_sorted.len() == n);
            assert forall|m: int| 0 <= m < pv.len() implies opt_sorted[m] == opt_g[
                #[trigger] pv[m]] by {
                assert(rev0[m] == sorted0[n - 1 - m]);
                assert(sorted0[n - 1 - m] == keyed0[perm_t[n - 1 - m]]);
                assert(keyed0[pv[m]].1 == optional_groups@[pv[m]]);
                assert(optional_sorted@[m] == rev0[m].1);
                assert(opt_sorted[m] == wu_views(optional_sorted@[m]@));
                assert(opt_g[pv[m]] == wu_views(optional_groups@[pv[m]]@));
            }
            assert forall|m: int, l: int| 0 <= m < l < pv.len() implies #[trigger] pv[m]
                != #[trigger] pv[l] by {
                assert(pv[m] == perm_t[n - 1 - m]);
                assert(pv[l] == perm_t[n - 1 - l]);
            }
            assert forall|m: int, l: int|
                0 <= m < l < opt_sorted.len() && sum_value(#[trigger] opt_sorted[m])
                    == sum_value(#[trigger] opt_sorted[l]) implies pv[m] > pv[l] by {
                let a = n - 1 - l;
                let b = n - 1 - m;
                assert(rev0[m] == sorted0[b]);
                assert(rev0[l] == sorted0[a]);
                assert(optional_sorted@[m] == rev0[m].1);
                assert(optional_sorted@[l] == rev0[l].1);
                assert(opt_sorted[m] == wu_views(optional_sorted@[m]@));
                assert(opt_sorted[l] == wu_views(optional_sorted@[l]@));
                assert(sorted0[b].0 == sum_value(opt_sorted[m]));
                assert(sorted0[a].0 == sum_value(opt_sorted[l]));
                assert(sorted0[a].0 == sorted0[b].0);
                assert(perm_t[a] < perm_t[b]);
            }
        }
        assert(stable_by_value_desc(opt_g, opt_sorted));
    }
    let r = run_driver(
        required_groups,
        optional_sorted,
        fee_rate,
        target_amount,
        &drain_script,
        Ghost(p),
    );
    proof {
        assert(group_post(p.optional, p.avoid_partial_spends, opt_g) && opt_sorted.to_multiset()
            == opt_g.to_multiset() && stable_by_value_desc(opt_g, opt_sorted));
        assert(exists|og: Seq<Seq<WeightedUtxoV>>|
            #[trigger] group_post(p.optional, p.avoid_partial_spends, og)
                && opt_sorted.to_multiset() == og.to_multiset() && stable_by_value_desc(
                og,
                opt_sorted,
            ));
        assert(driver_post(
            tag_seq(req_g, true) + tag_seq(opt_sorted, false),
            p.fee_rate,
            p.target_amount,
            p.drain_script,
            r,
        ));
    }
    r
}

/// Simple coin selection: sort the spendable groups by value and take from
/// the largest down until the target is reached.
#[derive(Debug, Clone, Copy)]
pub struct LargestFirstCoinSelection;

impl Default for LargestFirstCoinSelection {
    fn default() -> (r: Self)
        ensures
            r == (LargestFirstCoinSelection),
    {
        LargestFirstCoinSelection
    }
}

impl<R: UniformRandom> CoinSelectionAlgorithm<R> for LargestFirstCoinSelection {
    open spec fn pre(&self, p: CoinSelectionParamsV) -> bool {
        true
    }

    fn coin_select(&self, params: CoinSelectionParams, _rng: &mut R) -> (r: Result<
        CoinSelectionResult,
        InsufficientFunds,
    >) {
        select_largest_first(params)
    }
}


/// Age of a UTXO, packed so that smaller means older: confirmed outputs by
/// height then confirmation time, then unconfirmed outputs (an unknown
/// last-seen time before a known one), and foreign outputs last.
pub open spec fn utxo_age_rank(u: crate::types::UtxoV) -> int {
    match u {
        crate::types::UtxoV::Local(l) => match l.chain_position {
            crate::types::ChainPosition::Confirmed { height, confirmation_time } => height
                * 0x1_0000_0000_0000_0000 + confirmation_time,
            crate::types::ChainPosition::Unconfirmed { last_seen } => 0x1_0000_0000_0000_0000_0000_0000
                + match last_seen {
                Option::None => 0int,
                Option::Some(t) => 0x1_0000_0000_0000_0000 + t,
            },
        },
        crate::types::UtxoV::Foreign { .. } => 0x2_0000_0000_0000_0000_0000_0000,
    }
}

/// Age of a group: the age of its first member.
pub open spec fn group_age_rank(g: Seq<WeightedUtxoV>) -> int
    recommends
        g.len() > 0,
{
    utxo_age_rank(g[0].utxo)
}

fn age_key(w: &WeightedUtxo) -> (k: u128)
    ensures
        k as int == utxo_age_rank(w@.utxo),
{
    match &w.utxo {
        crate::types::Utxo::Local(local) => match &local.chain_position {
            crate::types::ChainPosition::Confirmed { height, confirmation_time } => (*height
                as u128) * 0x1_0000_0000_0000_0000u128 + (*confirmation_time as u128),
            crate::types::ChainPosition::Unconfirmed { last_seen } => match last_seen {
                Option::Some(t) => 0x1_0000_0000_0000_0000_0000_0000u128
                    + 0x1_0000_0000_0000_0000u128 + (*t as u128),
                Option::None => 0x1_0000_0000_0000_0000_0000_0000u128,
            },
        },
        crate::types::Utxo::Foreign { .. } => 0x2_0000_0000_0000_0000_0000_0000u128,
    }
}

/// Tag every non-empty group with its age key.
fn keyed_by_age(groups: Vec<Vec<WeightedUtxo>>) -> (r: Vec<(u128, Vec<WeightedUtxo>)>)
    requires
        forall|k: int| 0 <= k < groups@.len() ==> #[trigger] group_views(groups@)[k].len() >= 1,
    ensures
        r@.len() == groups@.len(),
        forall|k: int| 0 <= k < r@.len() ==> #[trigger] r@[k].1 == groups@[k],
        forall|k: int| 0 <= k < r@.len() ==> #[trigger] r@[k].0 as int == group_age_rank(
            group_views(groups@)[k],
        ),
{
    let ghost orig = groups@;
    let mut groups = groups;
    let mut r: Vec<(u128, Vec<WeightedUtxo>)> = Vec::new();
    while groups.len() > 0
        invariant
            groups@.len() <= orig.len(),
            groups@ == orig.skip(orig.len() - groups@.len()),
            forall|k: int| 0 <= k < orig.len() ==> #[trigger] group_views(orig)[k].len() >= 1,
            r@.len() == orig.len() - groups@.len(),
            forall|k: int| 0 <= k < r@.len() ==> #[trigger] r@[k].1 == orig[k],
            forall|k: int| 0 <= k < r@.len() ==> #[trigger] r@[k].0 as int == group_age_rank(
                group_views(orig)[k],
            ),
        decreases groups@.len(),
    {
        let ghost k = orig.len() - groups@.len();
        let g = groups.remove(0);
        proof {
            assert(orig.skip(k)[0] == orig[k]);
            assert(g == orig[k]);
            assert(groups@ =~= orig.skip(k + 1));
            assert(group_views(orig)[k] == wu_views(g@));
            assert(group_views(orig)[k].len() >= 1);
        }
        let key = age_key(&g[0]);
        proof {
            assert(g@[0]@ == wu_views(g@)[0]);
        }
        r.push((key, g));
    }
    r
}

/// Groups in weakly ascending order of age rank: oldest first.
pub open spec fn sorted_by_age(gs: Seq<Seq<WeightedUtxoV>>) -> bool {
    forall|a: int, b: int| 0 <= a < b < gs.len() ==> group_age_rank(#[trigger] gs[a])
        <= group_age_rank(#[trigger] gs[b])
}

/// `sorted` rearranges `gs` by the index map `perm` into weakly ascending
/// age; among equally old groups, earlier input groups come first.
pub open spec fn age_asc_perm(
    gs: Seq<Seq<WeightedUtxoV>>,
    sorted: Seq<Seq<WeightedUtxoV>>,
    perm: Seq<int>,
) -> bool {
    &&& perm.len() == gs.len()
    &&& sorted.len() == gs.len()
    &&& forall|m: int| 0 <= m < perm.len() ==> 0 <= #[trigger] perm[m] < gs.len()
    &&& forall|m: int| 0 <= m < perm.len() ==> sorted[m] == gs[#[trigger] perm[m]]
    &&& forall|m: int, n: int| 0 <= m < n < perm.len() ==> #[trigger] perm[m] != #[trigger]
        perm[n]
    &&& forall|m: int, n: int|
        0 <= m < n < sorted.len() && group_age_rank(#[trigger] sorted[m]) == group_age_rank(
            #[trigger] sorted[n],
        ) ==> perm[m] < perm[n]
}

/// Some such rearrangement exists: the oldest-first order and its tie-break
/// are fixed.
pub open spec fn stable_by_age(
    gs: Seq<Seq<WeightedUtxoV>>,
    sorted: Seq<Seq<WeightedUtxoV>>,
) -> bool {
    exists|perm: Seq<int>| #[trigger] age_asc_perm(gs, sorted, perm)
}

/// What selecting oldest-first returns: required groups first, then some
/// grouping of the optional UTXOs ordered oldest first, fed to the driver.
pub open spec fn oldest_first_post(
    p: CoinSelectionParamsV,
    r: Result<CoinSelectionResult, InsufficientFunds>,
) -> bool {
    exists|req_g: Seq<Seq<WeightedUtxoV>>, opt_sorted: Seq<Seq<WeightedUtxoV>>|
        {
            &&& group_post(p.required, p.avoid_partial_spends, req_g)
            &&& (exists|opt_g: Seq<Seq<WeightedUtxoV>>|
                #[trigger] group_post(p.optional, p.avoid_partial_spends, opt_g)
                    && opt_sorted.to_multiset() == opt_g.to_multiset() && stable_by_age(
                    opt_g,
                    opt_sorted,
                ))
            &&& sorted_by_age(opt_sorted)
            &&& #[trigger] driver_post(
                tag_seq(req_g, true) + tag_seq(opt_sorted, false),
                p.fee_rate,
                p.target_amount,
                p.drain_script,
                r,
            )
        }
}

proof fn lemma_groups_nonempty(input: Seq<WeightedUtxoV>, avoid: bool, gs: Seq<Seq<WeightedUtxoV>>)
    requires
        group_post(input, avoid, gs),
    ensures
        forall|k: int| 0 <= k < gs.len() ==> #[trigger] gs[k].len() >= 1,
{
    if !avoid {
        assert forall|k: int| 0 <= k < gs.len() implies #[trigger] gs[k].len() >= 1 by {
            assert(gs[k] == input.map_values(|w: WeightedUtxoV| seq![w])[k]);
        }
    }
}

/// Select the oldest groups first: sort the optional groups by the chain
/// position of their first member and take from the oldest until the target
/// is covered.
pub fn select_oldest_first(params: CoinSelectionParams) -> (r: Result<
    CoinSelectionResult,
    InsufficientFunds,
>)
    requires
        params_wf(params@),
    ensures
        universal_post(params@, r),
        oldest_first_post(params@, r),
{
    let ghost p = params@;
    let CoinSelectionParams {
        required_utxos,
        optional_utxos,
        fee_rate,
        target_amount,
        drain_script,
        avoid_partial_spends,
    } = params;
    let required_groups = group_utxos_if_applies(required_utxos, avoid_partial_spends);
    let optional_groups = group_utxos_if_applies(optional_utxos, avoid_partial_spends);
    let ghost req_g = group_views(required_groups@);
    let ghost opt_g = group_views(optional_groups@);
    proof {
        lemma_groups_nonempty(p.optional, p.avoid_partial_spends, opt_g);
    }
    let keyed = keyed_by_age(optional_groups);
    let ghost keyed0 = keyed@;
    let sorted = sort_by_key_asc(keyed);
    let ghost sorted0 = sorted@;
    let optional_sorted = unkey(sorted);
    let ghost opt_sorted = group_views(optional_sorted@);
    proof {
        broadcast use vstd::multiset::group_multiset_axioms;

        let second = |t: (u128, Vec<WeightedUtxo>)| t.1;
        assert(keyed0.map_values(second) =~= optional_groups@);
        lemma_map_values_multiset(sorted0, keyed0, second);
        assert(optional_sorted@.to_multiset() == optional_groups@.to_multiset());
        lemma_map_values_multiset(
            optional_sorted@,
            optional_groups@,
            |g: Vec<WeightedUtxo>| wu_views(g@),
        );
        assert(opt_sorted.to_multiset() == opt_g.to_multiset());
        lemma_flatten_multiset(opt_sorted, opt_g);
        assert forall|m: int| 0 <= m < sorted0.len() implies #[trigger] sorted0[m].0 as int
            == group_age_rank(wu_views(sorted0[m].1@)) by {
            to_multiset_contains(sorted0, sorted0[m]);
            to_multiset_contains(keyed0, sorted0[m]);
            assert(sorted0.contains(sorted0[m]));
            assert(keyed0.contains(sorted0[m]));
            let j = choose|j: int| 0 <= j < keyed0.len() && keyed0[j] == sorted0[m];
            assert(keyed0[j].0 as int == group_age_rank(group_views(optional_groups@)[j]));
            assert(group_views(optional_groups@)[j] == wu_views(optional_groups@[j]@));
            assert(keyed0[j].1 == optional_groups@[j]);
        }
        assert forall|a: int, b: int| 0 <= a < b < opt_sorted.len() implies group_age_rank(
            #[trigger] opt_sorted[a],
        ) <= group_age_rank(#[trigger] opt_sorted[b]) by {
            assert(sorted0[a].0 <= sorted0[b].0);
            assert(opt_sorted[a] == wu_views(optional_sorted@[a]@));
            assert(optional_sorted@[a] == sorted0[a].1);
            assert(optional_sorted@[b] == sorted0[b].1);
        }
        assert(sorted_by_age(opt_sorted));
        // the stable ascending sort fixes the tie-break: among equally old
        // groups, earlier input groups come first
        crate::sorting::lemma_stable_sort_perm(keyed0);
        let perm_t = choose|perm_t: Seq<int>| #[trigger] crate::sorting::stable_asc_perm(
            keyed0,
            sorted0,
            perm_t,
        );
        assert(age_asc_perm(opt_g, opt_sorted, perm_t)) by {
            let n = keyed0.len() as int;
            assert(opt_g.len() == n);
            assert(opt_sorted.len() == n);
            assert forall|m: int| 0 <= m < perm_t.len() implies opt_sorted[m] == opt_g[
                #[trigger] perm_t[m]] by {
                assert(sorted0[m] == keyed0[perm_t[m]]);
                assert(keyed0[perm_t[m]].1 == optional_groups@[perm_t[m]]);
                assert(optional_sorted@[m] == sorted0[m].1);
                assert(opt_sorted[m] == wu_views(optional_sorted@[m]@));
                assert(opt_g[perm_t[m]] == wu_views(optional_groups@[perm_t[m]]@));
            }
            assert forall|m: int, l: int|
                0 <= m < l < opt_sorted.len() && group_age_rank(#[trigger] opt_sorted[m])
                    == group_age_rank(#[trigger] opt_sorted[l]) implies perm_t[m] < perm_t[l]
                by {
                assert(optional_sorted@[m] == sorted0[m].1);
                assert(optional_sorted@[l] == sorted0[l].1);
                assert(opt_sorted[m] == wu_views(optional_sorted@[m]@));
                assert(opt_sorted[l] == wu_views(optional_sorted@[l]@));
                assert(sorted0[m].0 as int == group_age_rank(opt_sorted[m]));
                assert(sorted0[l].0 as int == group_age_rank(opt_sorted[l]));
                assert(sorted0[m].0 == sorted0[l].0);
            }
        }
        assert(stable_by_age(opt_g, opt_sorted));
    }
    let r = run_driver(
        required_groups,
        optional_sorted,
        fee_rate,
        target_amount,
        &drain_script,
        Ghost(p),
    );
    proof {
        assert(group_post(p.optional, p.avoid_partial_spends, opt_g) && opt_sorted.to_multiset()
            == opt_g.to_multiset() && stable_by_age(opt_g, opt_sorted));
        assert(exists|og: Seq<Seq<WeightedUtxoV>>|
            #[trigger] group_post(p.optional, p.avoid_partial_spends, og)
                && opt_sorted.to_multiset() == og.to_multiset() && stable_by_age(
                og,
                opt_sorted,
            ));
        assert(driver_post(
            tag_seq(req_g, true) + tag_seq(opt_sorted, false),
            p.fee_rate,
            p.target_amount,
            p.drain_script,
            r,
        ));
    }
    r
}

/// Coin selection preferring the oldest confirmed outputs.
#[derive(Debug, Clone, Copy)]
pub struct OldestFirstCoinSelection;

impl Default for OldestFirstCoinSelection {
    fn default() -> (r: Self)
        ensures
            r == (OldestFirstCoinSelection),
    {
        OldestFirstCoinSelection
    }
}

impl<R: UniformRandom> CoinSelectionAlgorithm<R> for OldestFirstCoinSelection {
    open spec fn pre(&self, p: CoinSelectionParamsV) -> bool {
        true
    }

    fn coin_select(&self, params: CoinSelectionParams, _rng: &mut R) -> (r: Result<
        CoinSelectionResult,
        InsufficientFunds,
    >) {
        select_oldest_first(params)
    }
}

/// Shuffle the groups uniformly with the caller's random source.
fn shuffle_groups<R: UniformRandom>(groups: Vec<Vec<WeightedUtxo>>, rng: &mut R) -> (r: Vec<
    Vec<WeightedUtxo>,
>)
    ensures
        r@.to_multiset() == groups@.to_multiset(),
        r@.len() == groups@.len(),
{
    let ghost orig = groups@;
    let mut v = groups;
    proof {
        vstd::seq_lib::to_multiset_len(orig);
    }
    if v.len() <= 1 {
        return v;
    }
    let mut i: usize = v.len() - 1;
    while i > 0
        invariant
            v@.to_multiset() == orig.to_multiset(),
            v@.len() == orig.len(),
            i < v@.len(),
        decreases i,
    {
        let n = v.len();
        proof {
            assert(i < n);
        }
        let j = rng.next_index(i + 1);
        if j != i {
            proof {
                broadcast use vstd::multiset::group_multiset_axioms;
            }
            let ghost s0 = v@;
            let a = v.remove(i);
            proof {
                vstd::seq_lib::to_multiset_remove(s0, i as int);
            }
            let ghost s1 = v@;
            let b = v.remove(j);
            proof {
                vstd::seq_lib::to_multiset_remove(s1, j as int);
            }
            let ghost s2 = v@;
            v.insert(j, a);
            proof {
                vstd::seq_lib::to_multiset_insert(s2, j as int, a);
            }
            let ghost s3 = v@;
            v.insert(i, b);
            proof {
                broadcast use vstd::multiset::group_multiset_axioms;

                vstd::seq_lib::to_multiset_insert(s3, i as int, b);
                vstd::seq_lib::to_multiset_contains(s0, a);
                vstd::seq_lib::to_multiset_contains(s1, b);
                assert(s0.contains(a)) by {
                    assert(s0[i as int] == a);
                }
                assert(s1.contains(b)) by {
                    assert(s1[j as int] == b);
                }
                assert(s0.to_multiset().count(a) > 0);
                assert(s1.to_multiset().count(b) > 0);
                assert forall|y: Vec<WeightedUtxo>| v@.to_multiset().count(y)
                    == s0.to_multiset().count(y) by {}
                assert(v@.to_multiset() =~= s0.to_multiset());
            }
        }
        i = i - 1;
    }
    proof {
        vstd::seq_lib::to_multiset_len(orig);
        vstd::seq_lib::to_multiset_len(v@);
    }
    v
}

/// What a random draw returns: required groups first, then the optional
/// groups in some order, fed to the driver.
pub open spec fn single_random_draw_post(
    p: CoinSelectionParamsV,
    r: Result<CoinSelectionResult, InsufficientFunds>,
) -> bool {
    exists|req_g: Seq<Seq<WeightedUtxoV>>, opt_perm: Seq<Seq<WeightedUtxoV>>|
        {
            &&& group_post(p.required, p.avoid_partial_spends, req_g)
            &&& (exists|opt_g: Seq<Seq<WeightedUtxoV>>|
                #[trigger] group_post(p.optional, p.avoid_partial_spends, opt_g)
                    && opt_perm.to_multiset() == opt_g.to_multiset())
            &&& #[trigger] driver_post(
                tag_seq(req_g, true) + tag_seq(opt_perm, false),
                p.fee_rate,
                p.target_amount,
                p.drain_script,
                r,
            )
        }
}

/// Select required groups, then optional groups in uniformly random order,
/// until the target is covered.
pub fn select_single_random_draw<R: UniformRandom>(
    params: CoinSelectionParams,
    rng: &mut R,
) -> (r: Result<CoinSelectionResult, InsufficientFunds>)
    requires
        params_wf(params@),
    ensures
        universal_post(params@, r),
        single_random_draw_post(params@, r),
{
    let ghost p = params@;
    let CoinSelectionParams {
        required_utxos,
        optional_utxos,
        fee_rate,
        target_amount,
        drain_script,
        avoid_partial_spends,
    } = params;
    let required_groups = group_utxos_if_applies(required_utxos, avoid_partial_spends);
    let optional_groups = group_utxos_if_applies(optional_utxos, avoid_partial_spends);
    let ghost req_g = group_views(required_groups@);
    let ghost opt_g = group_views(optional_groups@);
    let ghost opt_orig = optional_groups@;
    let optional_shuffled = shuffle_groups(optional_groups, rng);
    let ghost opt_perm = group_views(optional_shuffled@);
    proof {
        lemma_map_values_multiset(
            optional_shuffled@,
            opt_orig,
            |g: Vec<WeightedUtxo>| wu_views(g@),
        );
        assert(opt_perm.to_multiset() == opt_g.to_multiset());
        lemma_flatten_multiset(opt_perm, opt_g);
    }
    let r = run_driver(
        required_groups,
        optional_shuffled,
        fee_rate,
        target_amount,
        &drain_script,
        Ghost(p),
    );
    proof {
        assert(group_post(p.optional, p.avoid_partial_spends, opt_g) && opt_perm.to_multiset()
            == opt_g.to_multiset());
        assert(exists|og: Seq<Seq<WeightedUtxoV>>|
            #[trigger] group_post(p.optional, p.avoid_partial_spends, og)
                && opt_perm.to_multiset() == og.to_multiset());
        assert(driver_post(
            tag_seq(req_g, true) + tag_seq(opt_perm, false),
            p.fee_rate,
            p.target_amount,
            p.drain_script,
            r,
        ));
    }
    r
}

/// Pull groups at random until the target is covered.
#[derive(Debug, Clone, Copy)]
pub struct SingleRandomDraw;

impl Default for SingleRandomDraw {
    fn default() -> (r: Self)
        ensures
            r == (SingleRandomDraw),
    {
        SingleRandomDraw
    }
}

impl<R: UniformRandom> CoinSelectionAlgorithm<R> for SingleRandomDraw {
    open spec fn pre(&self, p: CoinSelectionParamsV) -> bool {
        true
    }

    fn coin_select(&self, params: CoinSelectionParams, rng: &mut R) -> (r: Result<
        CoinSelectionResult,
        InsufficientFunds,
    >) {
        select_single_random_draw(params, rng)
    }
}

} // verus!
