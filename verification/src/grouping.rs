//! Grouping UTXOs so that every group is spent atomically.
//!
//! By default each UTXO is its own group. When partial spends are to be
//! avoided, UTXOs sharing a script are grouped together, and a group
//! exceeding [`OUTPUT_GROUP_MAX_ENTRIES`] members is split into consecutive
//! chunks no larger than that bound.

use vstd::prelude::*;
use vstd::multiset::Multiset;

use vstd::seq_lib::lemma_multiset_commutative;
use vstd::seq_lib::to_multiset_build;

use crate::sums::lemma_flatten_remove;
use crate::types::bytes_eq;
use crate::types::wu_views;
use crate::types::WeightedUtxo;
use crate::types::WeightedUtxoV;

verus! {

/// Largest number of UTXOs a single group may hold.
pub const OUTPUT_GROUP_MAX_ENTRIES: usize = 100;

/// The views of a sequence of groups.
pub open spec fn group_views(s: Seq<Vec<WeightedUtxo>>) -> Seq<Seq<WeightedUtxoV>> {
    s.map_values(|g: Vec<WeightedUtxo>| wu_views(g@))
}

/// All members of the group lock under the same script.
pub open spec fn same_script_group(g: Seq<WeightedUtxoV>) -> bool {
    forall|i: int, j: int| 0 <= i < g.len() && 0 <= j < g.len() ==> #[trigger] g[i].script()
        == #[trigger] g[j].script()
}

/// The members of `s` locking under `script`, in their order in `s`.
pub open spec fn spec_filter_script(s: Seq<WeightedUtxoV>, script: Seq<u8>) -> Seq<
    WeightedUtxoV,
>
    decreases s.len(),
{
    if s.len() == 0 {
        Seq::empty()
    } else {
        let prev = spec_filter_script(s.drop_last(), script);
        if s.last().script() == script {
            prev.push(s.last())
        } else {
            prev
        }
    }
}

/// The group is one contiguous run of the input's members of its script,
/// keeping their input order.
pub open spec fn is_script_run(input: Seq<WeightedUtxoV>, g: Seq<WeightedUtxoV>) -> bool {
    exists|a: int, b: int|
        0 <= a <= b <= spec_filter_script(input, g.first().script()).len() && g
            == spec_filter_script(input, g.first().script()).subrange(a, b)
}

proof fn lemma_filter_script_empty(s: Seq<WeightedUtxoV>, script: Seq<u8>)
    requires
        forall|j: int| 0 <= j < s.len() ==> (#[trigger] s[j]).script() != script,
    ensures
        spec_filter_script(s, script) == Seq::<WeightedUtxoV>::empty(),
    decreases s.len(),
{
    if s.len() > 0 {
        assert forall|j: int| 0 <= j < s.drop_last().len() implies (#[trigger] s.drop_last()[
        j]).script() != script by {
            assert(s.drop_last()[j] == s[j]);
        }
        lemma_filter_script_empty(s.drop_last(), script);
    }
}

/// What grouping guarantees.
///
/// The groups always hold exactly the input UTXOs. Without partial-spend
/// avoidance every UTXO is its own group, in order. With it, every group is
/// non-empty, no larger than [`OUTPUT_GROUP_MAX_ENTRIES`], script-uniform,
/// a contiguous run of its script's members in their input order, and for
/// every script at most one of its groups is not full, so the split into
/// chunks is as coarse as the bound allows.
pub open spec fn group_post(
    input: Seq<WeightedUtxoV>,
    avoid_partial_spends: bool,
    gs: Seq<Seq<WeightedUtxoV>>,
) -> bool {
    &&& gs.flatten().to_multiset() == input.to_multiset()
    &&& (!avoid_partial_spends ==> gs == input.map_values(|w: WeightedUtxoV| seq![w]))
    &&& (avoid_partial_spends ==> forall|k: int| 0 <= k < gs.len() ==> 1 <= #[trigger] gs[k].len()
        <= OUTPUT_GROUP_MAX_ENTRIES)
    &&& (avoid_partial_spends ==> forall|k: int| 0 <= k < gs.len() ==> same_script_group(
        #[trigger] gs[k],
    ))
    &&& (avoid_partial_spends ==> forall|k: int| 0 <= k < gs.len() ==> is_script_run(
        input,
        #[trigger] gs[k],
    ))
    &&& (avoid_partial_spends ==> forall|k: int, l: int|
        0 <= k < gs.len() && 0 <= l < gs.len() && k != l && #[trigger] gs[k].first().script()
            == #[trigger] gs[l].first().script() ==> gs[k].len() == OUTPUT_GROUP_MAX_ENTRIES
            || gs[l].len() == OUTPUT_GROUP_MAX_ENTRIES)
}

proof fn lemma_flatten_of_singletons(s: Seq<WeightedUtxoV>)
    ensures
        s.map_values(|w: WeightedUtxoV| seq![w]).flatten() == s,
    decreases s.len(),
{
    let gs = s.map_values(|w: WeightedUtxoV| seq![w]);
    if s.len() == 0 {
        assert(gs.flatten() =~= s);
    } else {
        lemma_flatten_of_singletons(s.drop_last());
        assert(s.drop_last().map_values(|w: WeightedUtxoV| seq![w]) =~= gs.drop_last());
        gs.drop_last().lemma_flatten_push(gs.last());
        assert(gs =~= gs.drop_last().push(gs.last()));
        assert(gs.last() =~= seq![s.last()]);
        assert(gs.flatten() =~= s);
    }
}

/// Flattening after growing one group by one element adds that element.
proof fn lemma_flatten_update_push(gs: Seq<Seq<WeightedUtxoV>>, k: int, w: WeightedUtxoV)
    requires
        0 <= k < gs.len(),
    ensures
        gs.update(k, gs[k].push(w)).flatten().to_multiset() == gs.flatten().to_multiset().insert(
            w,
        ),
{
    let gs2 = gs.update(k, gs[k].push(w));
    lemma_flatten_remove(gs, k);
    lemma_flatten_remove(gs2, k);
    assert(gs2.remove(k) =~= gs.remove(k));
    to_multiset_build(gs[k], w);
    assert(gs2[k] == gs[k].push(w));
    assert(gs2.flatten().to_multiset() =~= gs.flatten().to_multiset().insert(w));
}

/// Group `utxos` for atomic spending.
pub fn group_utxos_if_applies(utxos: Vec<WeightedUtxo>, avoid_partial_spends: bool) -> (r: Vec<
    Vec<WeightedUtxo>,
>)
    ensures
        group_post(wu_views(utxos@), avoid_partial_spends, group_views(r@)),
{
    let ghost input = wu_views(utxos@);
    if !avoid_partial_spends {
        let mut r: Vec<Vec<WeightedUtxo>> = Vec::new();
        let mut i: usize = 0;
        while i < utxos.len()
            invariant
                0 <= i <= utxos.len(),
                input == wu_views(utxos@),
                group_views(r@) == input.take(i as int).map_values(
                    |w: WeightedUtxoV| seq![w],
                ),
            decreases utxos.len() - i,
        {
            let mut g: Vec<WeightedUtxo> = Vec::new();
            g.push(utxos[i].copied());
            proof {
                assert(wu_views(g@) =~= seq![input[i as int]]);
            }
            let ghost prev_r = r@;
            r.push(g);
            proof {
                let lhs = group_views(r@);
                let rhs = input.take(i + 1).map_values(|w: WeightedUtxoV| seq![w]);
                assert(group_views(prev_r).len() == prev_r.len());
                assert(input.take(i as int).map_values(|w: WeightedUtxoV| seq![w]).len()
                    == i as int);
                assert(prev_r.len() == i as int);
                assert forall|m: int| 0 <= m < lhs.len() implies lhs[m] == rhs[m] by {
                    if m < i {
                        assert(r@[m] == prev_r[m]);
                        assert(lhs[m] == group_views(prev_r)[m]);
                        assert(group_views(prev_r)[m] == input.take(i as int).map_values(
                            |w: WeightedUtxoV| seq![w],
                        )[m]);
                    } else {
                        assert(r@[m] == g);
                        assert(lhs[m] == wu_views(g@));
                    }
                }
                assert(group_views(r@) =~= rhs);
            }
            i = i + 1;
        }
        proof {
            assert(input.take(input.len() as int) =~= input);
            lemma_flatten_of_singletons(input);
        }
        return r;
    }
    // Collect UTXOs sharing a script into one bucket each.
    let mut buckets: Vec<Vec<WeightedUtxo>> = Vec::new();
    proof {
        broadcast use vstd::multiset::group_multiset_axioms;
        assert(group_views(buckets@) =~= Seq::<Seq<WeightedUtxoV>>::empty());
        assert(group_views(buckets@).flatten() =~= Seq::<WeightedUtxoV>::empty());
        assert(input.take(0) =~= Seq::<WeightedUtxoV>::empty());
    }
    let mut i: usize = 0;
    while i < utxos.len()
        invariant
            0 <= i <= utxos.len(),
            input == wu_views(utxos@),
            group_views(buckets@).flatten().to_multiset() == input.take(
                i as int,
            ).to_multiset(),
            forall|k: int| 0 <= k < buckets@.len() ==> #[trigger] group_views(buckets@)[k].len()
                >= 1,
            forall|k: int| 0 <= k < buckets@.len() ==> same_script_group(
                #[trigger] group_views(buckets@)[k],
            ),
            forall|k: int, l: int|
                0 <= k < buckets@.len() && 0 <= l < buckets@.len() && k != l ==> #[trigger]
                    group_views(buckets@)[k].first().script() != #[trigger] group_views(
                    buckets@,
                )[l].first().script(),
            forall|k: int| 0 <= k < buckets@.len() ==> #[trigger] group_views(buckets@)[k]
                == spec_filter_script(
                input.take(i as int),
                group_views(buckets@)[k].first().script(),
            ),
            forall|j: int| 0 <= j < i ==> exists|k: int|
                0 <= k < buckets@.len() && (#[trigger] input[j]).script() == group_views(
                    buckets@,
                )[k].first().script(),
        decreases utxos.len() - i,
    {
        let ghost old_groups = group_views(buckets@);
        let w = utxos[i].copied();
        let ghost wv = w@;
        proof {
            assert(wv == input[i as int]);
        }
        let mut found: bool = false;
        let mut k: usize = 0;
        while !found && k < buckets.len()
            invariant
                0 <= k <= buckets.len(),
                forall|m: int| 0 <= m < k ==> #[trigger] group_views(
                    buckets@,
                )[m].first().script() != wv.script(),
                found ==> k < buckets@.len() && group_views(buckets@)[k as int].first().script()
                    == wv.script(),
                forall|m: int| 0 <= m < buckets@.len() ==> #[trigger] group_views(
                    buckets@,
                )[m].len() >= 1,
                wv == w@,
            decreases buckets.len() - k, (if found { 0int } else { 1int }),
        {
            proof {
                assert(group_views(buckets@)[k as int].len() >= 1);
                assert(buckets@[k as int]@.len() >= 1);
            }
            let same = bytes_eq(
                &buckets[k][0].utxo.txout().script_pubkey,
                &w.utxo.txout().script_pubkey,
            );
            if same {
                proof {
                    assert(group_views(buckets@)[k as int].first()
                        == buckets@[k as int]@[0]@);
                }
                found = true;
            } else {
                proof {
                    assert(group_views(buckets@)[k as int].first()
                        == buckets@[k as int]@[0]@);
                }
                k = k + 1;
            }
        }
        if found {
            proof {
                assert(group_views(buckets@)[k as int].first().script() == wv.script());
            }
            let mut g = buckets.remove(k);
            g.push(w);
            buckets.insert(k, g);
            proof {
                let new_groups = group_views(buckets@);
                assert(new_groups =~~= old_groups.update(
                    k as int,
                    old_groups[k as int].push(wv),
                ));
                // index 0 of the grown bucket is unchanged, so scripts of
                // buckets stay pairwise distinct
                assert(old_groups[k as int].len() >= 1);
                assert(new_groups[k as int].first() == old_groups[k as int].first());
                assert forall|m: int, l: int|
                    0 <= m < new_groups.len() && 0 <= l < new_groups.len() && m != l implies
                    #[trigger] new_groups[m].first().script() != #[trigger] new_groups[
                l].first().script() by {
                    assert(new_groups[m].first() == old_groups[m].first());
                    assert(new_groups[l].first() == old_groups[l].first());
                }
                lemma_flatten_update_push(old_groups, k as int, wv);
                to_multiset_build(input.take(i as int), input[i as int]);
                assert(input.take(i + 1) =~= input.take(i as int).push(input[i as int]));
                // each bucket still holds exactly its script's members
                assert(input.take(i + 1).drop_last() =~= input.take(i as int));
                assert(input.take(i + 1).last() == wv);
                assert forall|m: int| 0 <= m < new_groups.len() implies #[trigger] new_groups[m]
                    == spec_filter_script(
                    input.take(i + 1),
                    new_groups[m].first().script(),
                ) by {
                    if m == k as int {
                        assert(new_groups[m] == old_groups[m].push(wv));
                        assert(new_groups[m].first().script() == wv.script());
                    } else {
                        assert(new_groups[m] == old_groups[m]);
                        assert(new_groups[m].first().script() != wv.script());
                    }
                }
                assert forall|j: int| 0 <= j < i + 1 implies exists|m: int|
                    0 <= m < buckets@.len() && (#[trigger] input[j]).script() == group_views(
                        buckets@,
                    )[m].first().script() by {
                    if j < i {
                        let m0 = choose|m0: int|
                            0 <= m0 < old_groups.len() && input[j].script()
                                == old_groups[m0].first().script();
                        assert(new_groups[m0].first() == old_groups[m0].first());
                        assert(0 <= m0 < buckets@.len() && input[j].script() == group_views(
                            buckets@,
                        )[m0].first().script());
                    } else {
                        assert(input[j] == wv);
                        assert(0 <= (k as int) < buckets@.len() && input[j].script()
                            == group_views(buckets@)[k as int].first().script());
                    }
                }
                // script uniformity of the grown bucket
                assert forall|m: int| 0 <= m < new_groups.len() implies same_script_group(
                    #[trigger] new_groups[m],
                ) by {
                    if m == k as int {
                        let g0 = old_groups[m];
                        let g1 = new_groups[m];
                        assert(g1 =~= g0.push(wv));
                        assert forall|a: int, b: int|
                            0 <= a < g1.len() && 0 <= b < g1.len() implies #[trigger] g1[
                            a].script() == #[trigger] g1[b].script() by {
                            if a < g0.len() {
                                assert(g1[a] == g0[a]);
                                assert(g0[a].script() == g0[0].script());
                            }
                            if b < g0.len() {
                                assert(g1[b] == g0[b]);
                                assert(g0[b].script() == g0[0].script());
                            }
                        }
                    }
                }
            }
        } else {
            let mut g: Vec<WeightedUtxo> = Vec::new();
            g.push(w);
            proof {
                assert(wu_views(g@) =~= seq![wv]);
            }
            buckets.push(g);
            proof {
                broadcast use vstd::multiset::group_multiset_axioms;
                let new_groups = group_views(buckets@);
                assert(new_groups =~~= old_groups.push(seq![wv]));
                old_groups.lemma_flatten_push(seq![wv]);
                lemma_multiset_commutative(old_groups.flatten(), seq![wv]);
                assert(seq![wv].to_multiset() =~= Multiset::empty().insert(wv)) by {
                    assert(seq![wv] =~= Seq::<WeightedUtxoV>::empty().push(wv));
                    to_multiset_build(Seq::<WeightedUtxoV>::empty(), wv);
                    vstd::seq_lib::to_multiset_len(Seq::<WeightedUtxoV>::empty());
                    vstd::multiset::lemma_multiset_empty_len(
                        Seq::<WeightedUtxoV>::empty().to_multiset(),
                    );
                }
                to_multiset_build(input.take(i as int), input[i as int]);
                assert(input.take(i + 1) =~= input.take(i as int).push(input[i as int]));
                assert(new_groups.flatten().to_multiset() =~= input.take(i + 1).to_multiset());
                // the new bucket's script differs from every other bucket's
                assert(new_groups[new_groups.len() - 1].first() == wv);
                // each bucket still holds exactly its script's members: the
                // new script never occurred before, and the others skip it
                assert(input.take(i + 1).drop_last() =~= input.take(i as int));
                assert(input.take(i + 1).last() == wv);
                assert(spec_filter_script(input.take(i as int), wv.script()) == Seq::<
                    WeightedUtxoV,
                >::empty()) by {
                    assert forall|j: int| 0 <= j < input.take(i as int).len() implies (
                    #[trigger] input.take(i as int)[j]).script() != wv.script() by {
                        assert(input.take(i as int)[j] == input[j]);
                        let m0 = choose|m0: int|
                            0 <= m0 < old_groups.len() && input[j].script()
                                == old_groups[m0].first().script();
                        assert(old_groups[m0].first().script() != wv.script());
                    }
                    lemma_filter_script_empty(input.take(i as int), wv.script());
                }
                assert forall|m: int| 0 <= m < new_groups.len() implies #[trigger] new_groups[m]
                    == spec_filter_script(
                    input.take(i + 1),
                    new_groups[m].first().script(),
                ) by {
                    if m < old_groups.len() {
                        assert(new_groups[m] == old_groups[m]);
                        assert(new_groups[m].first().script() != wv.script());
                    } else {
                        assert(new_groups[m] =~= seq![wv]);
                        assert(new_groups[m].first().script() == wv.script());
                        assert(spec_filter_script(input.take(i + 1), wv.script()) =~= seq![
                            wv,
                        ]);
                    }
                }
                assert forall|j: int| 0 <= j < i + 1 implies exists|m: int|
                    0 <= m < buckets@.len() && (#[trigger] input[j]).script() == group_views(
                        buckets@,
                    )[m].first().script() by {
                    if j < i {
                        let m0 = choose|m0: int|
                            0 <= m0 < old_groups.len() && input[j].script()
                                == old_groups[m0].first().script();
                        assert(new_groups[m0].first() == old_groups[m0].first());
                        assert(0 <= m0 < buckets@.len() && input[j].script() == group_views(
                            buckets@,
                        )[m0].first().script());
                    } else {
                        assert(input[j] == wv);
                        let mn = new_groups.len() - 1;
                        assert(0 <= mn < buckets@.len() && input[j].script() == group_views(
                            buckets@,
                        )[mn].first().script());
                    }
                }
                assert forall|m: int, l: int|
                    0 <= m < new_groups.len() && 0 <= l < new_groups.len() && m != l implies
                    #[trigger] new_groups[m].first().script() != #[trigger] new_groups[
                l].first().script() by {
                    if m < old_groups.len() && l < old_groups.len() {
                        assert(new_groups[m].first() == old_groups[m].first());
                        assert(new_groups[l].first() == old_groups[l].first());
                    } else if m < old_groups.len() {
                        assert(new_groups[m].first() == old_groups[m].first());
                    } else if l < old_groups.len() {
                        assert(new_groups[l].first() == old_groups[l].first());
                    }
                }
            }
        }
        i = i + 1;
    }
    proof {
        assert(input.take(input.len() as int) =~= input);
    }
    // Split every bucket into chunks of at most the group bound.
    let ghost bucket_groups = group_views(buckets@);
    let mut r: Vec<Vec<WeightedUtxo>> = Vec::new();
    let mut b: usize = 0;
    while b < buckets.len()
        invariant
            0 <= b <= buckets.len(),
            bucket_groups == group_views(buckets@),
            bucket_groups.flatten().to_multiset() == input.to_multiset(),
            forall|k: int| 0 <= k < bucket_groups.len() ==> #[trigger] bucket_groups[k].len()
                >= 1,
            forall|k: int| 0 <= k < bucket_groups.len() ==> same_script_group(
                #[trigger] bucket_groups[k],
            ),
            forall|k: int, l: int|
                0 <= k < bucket_groups.len() && 0 <= l < bucket_groups.len() && k != l
                    ==> #[trigger] bucket_groups[k].first().script() != #[trigger]
                    bucket_groups[l].first().script(),
            forall|k: int| 0 <= k < bucket_groups.len() ==> #[trigger] bucket_groups[k]
                == spec_filter_script(input, bucket_groups[k].first().script()),
            forall|k: int| 0 <= k < r@.len() ==> is_script_run(
                input,
                #[trigger] group_views(r@)[k],
            ),
            group_views(r@).flatten().to_multiset() == bucket_groups.take(
                b as int,
            ).flatten().to_multiset(),
            forall|k: int| 0 <= k < r@.len() ==> 1 <= #[trigger] group_views(r@)[k].len()
                <= OUTPUT_GROUP_MAX_ENTRIES,
            forall|k: int| 0 <= k < r@.len() ==> same_script_group(
                #[trigger] group_views(r@)[k],
            ),
            forall|k: int| 0 <= k < r@.len() ==> exists|m: int|
                0 <= m < b && #[trigger] group_views(r@)[k].first().script()
                    == bucket_groups[m].first().script(),
            forall|k: int, l: int|
                0 <= k < r@.len() && 0 <= l < r@.len() && k != l && #[trigger] group_views(
                    r@,
                )[k].first().script() == #[trigger] group_views(r@)[l].first().script()
                    ==> group_views(r@)[k].len() == OUTPUT_GROUP_MAX_ENTRIES || group_views(
                    r@,
                )[l].len() == OUTPUT_GROUP_MAX_ENTRIES,
        decreases buckets.len() - b,
    {
        let ghost old_r = group_views(r@);
        let ghost bucket = bucket_groups[b as int];
        let blen = buckets[b].len();
        proof {
            broadcast use vstd::multiset::group_multiset_axioms;
            assert(bucket.take(0) =~= Seq::<WeightedUtxoV>::empty());
            vstd::seq_lib::to_multiset_len(Seq::<WeightedUtxoV>::empty());
            vstd::multiset::lemma_multiset_empty_len(
                Seq::<WeightedUtxoV>::empty().to_multiset(),
            );
            assert(group_views(r@).flatten().to_multiset() =~= old_r.flatten().to_multiset().add(
                bucket.take(0).to_multiset(),
            ));
        }
        let mut start: usize = 0;
        while start < blen
            invariant
                0 <= start <= blen,
                0 <= b < buckets@.len(),
                bucket_groups == group_views(buckets@),
                blen == buckets@[b as int]@.len(),
                bucket == bucket_groups[b as int],
                bucket.len() == blen,
                blen >= 1,
                same_script_group(bucket),
                bucket == spec_filter_script(input, bucket.first().script()),
                forall|k: int| 0 <= k < old_r.len() ==> is_script_run(
                    input,
                    #[trigger] old_r[k],
                ),
                old_r.len() <= r@.len(),
                forall|k: int| 0 <= k < old_r.len() ==> #[trigger] group_views(r@)[k]
                    == old_r[k],
                forall|k: int| old_r.len() <= k < r@.len() ==> is_script_run(
                    input,
                    #[trigger] group_views(r@)[k],
                ),
                group_views(r@).flatten().to_multiset() == old_r.flatten().to_multiset().add(
                    bucket.take(start as int).to_multiset(),
                ),
                // properties of the chunks cut from this bucket so far
                forall|k: int| old_r.len() <= k < r@.len() ==> 1 <= #[trigger] group_views(
                    r@,
                )[k].len() <= OUTPUT_GROUP_MAX_ENTRIES,
                forall|k: int| old_r.len() <= k < r@.len() ==> same_script_group(
                    #[trigger] group_views(r@)[k],
                ),
                forall|k: int| old_r.len() <= k < r@.len() ==> #[trigger] group_views(
                    r@,
                )[k].first().script() == bucket.first().script(),
                // every chunk so far is full, except possibly the last one,
                // which is only partial once the bucket is exhausted
                forall|k: int| old_r.len() <= k < r@.len() - 1 ==> #[trigger] group_views(
                    r@,
                )[k].len() == OUTPUT_GROUP_MAX_ENTRIES,
                (start < blen && r@.len() > old_r.len()) ==> group_views(r@)[r@.len() - 1].len()
                    == OUTPUT_GROUP_MAX_ENTRIES,
            decreases blen - start,
        {
            let end = if blen - start < OUTPUT_GROUP_MAX_ENTRIES {
                blen
            } else {
                start + OUTPUT_GROUP_MAX_ENTRIES
            };
            let mut chunk: Vec<WeightedUtxo> = Vec::new();
            let mut j: usize = start;
            while j < end
                invariant
                    start <= j <= end,
                    0 <= b < buckets@.len(),
                    bucket_groups == group_views(buckets@),
                    blen == buckets@[b as int]@.len(),
                    bucket == bucket_groups[b as int],
                    bucket.len() == blen,
                    end <= blen,
                    wu_views(chunk@) == bucket.subrange(start as int, j as int),
                decreases end - j,
            {
                let cw = buckets[b][j].copied();
                proof {
                    assert(cw@ == buckets@[b as int]@[j as int]@);
                    assert(bucket[j as int] == buckets@[b as int]@[j as int]@);
                }
                let ghost prevc = chunk@;
                chunk.push(cw);
                proof {
                    let rhs = bucket.subrange(start as int, j + 1);
                    assert(wu_views(prevc).len() == prevc.len());
                    assert(prevc.len() == j - start);
                    assert forall|m: int| 0 <= m < chunk@.len() implies wu_views(chunk@)[m]
                        == rhs[m] by {
                        if m < j - start {
                            assert(chunk@[m] == prevc[m]);
                            assert(wu_views(chunk@)[m] == wu_views(prevc)[m]);
                            assert(wu_views(prevc)[m] == bucket.subrange(
                                start as int,
                                j as int,
                            )[m]);
                        } else {
                            assert(chunk@[m] == cw);
                            assert(wu_views(chunk@)[m] == cw@);
                            assert(rhs[m] == bucket[j as int]);
                        }
                    }
                    assert(wu_views(chunk@) =~= rhs);
                }
                j = j + 1;
            }
            let ghost prev = group_views(r@);
            r.push(chunk);
            proof {
                broadcast use vstd::multiset::group_multiset_axioms;
                let c = bucket.subrange(start as int, end as int);
                assert(group_views(r@) =~~= prev.push(c));
                prev.lemma_flatten_push(c);
                lemma_multiset_commutative(prev.flatten(), c);
                assert(bucket.take(start as int) + c =~= bucket.take(end as int));
                lemma_multiset_commutative(bucket.take(start as int), c);
                assert(same_script_group(c)) by {
                    assert forall|x: int, y: int|
                        0 <= x < c.len() && 0 <= y < c.len() implies #[trigger] c[x].script()
                        == #[trigger] c[y].script() by {
                        assert(c[x] == bucket[x + start as int]);
                        assert(c[y] == bucket[y + start as int]);
                    }
                }
                assert(c.first() == bucket[start as int]);
                assert(c.first().script() == bucket.first().script());
                assert(is_script_run(input, c)) by {
                    assert(c == spec_filter_script(input, c.first().script()).subrange(
                        start as int,
                        end as int,
                    ));
                }
            }
            start = end;
        }
        proof {
            assert(bucket.take(blen as int) =~= bucket);
            assert(bucket_groups.take(b + 1).drop_last() =~= bucket_groups.take(b as int));
            assert(bucket_groups.take(b + 1) =~= bucket_groups.take(b as int).push(bucket));
            bucket_groups.take(b as int).lemma_flatten_push(bucket);
            lemma_multiset_commutative(bucket_groups.take(b as int).flatten(), bucket);
            let new_r = group_views(r@);
            // chunks of different buckets never share a script
            assert forall|k: int, l: int|
                0 <= k < new_r.len() && 0 <= l < new_r.len() && k != l && #[trigger] new_r[
                k].first().script() == #[trigger] new_r[l].first().script() implies new_r[
            k].len() == OUTPUT_GROUP_MAX_ENTRIES || new_r[l].len()
                == OUTPUT_GROUP_MAX_ENTRIES by {
                if k < old_r.len() && l < old_r.len() {
                    assert(new_r[k] == old_r[k] && new_r[l] == old_r[l]);
                } else if k >= old_r.len() && l >= old_r.len() {
                    assert(k < new_r.len() - 1 || l < new_r.len() - 1);
                } else {
                    let ko = if k < old_r.len() {
                        k
                    } else {
                        l
                    };
                    let kn = if k < old_r.len() {
                        l
                    } else {
                        k
                    };
                    assert(new_r[ko] == old_r[ko]);
                    let m = choose|m: int|
                        0 <= m < b && old_r[ko].first().script()
                            == bucket_groups[m].first().script();
                    assert(new_r[kn].first().script() == bucket.first().script());
                    assert(bucket_groups[m].first().script()
                        != bucket_groups[b as int].first().script());
                }
            }
            assert forall|k: int| 0 <= k < new_r.len() implies exists|m: int|
                0 <= m < b + 1 && #[trigger] new_r[k].first().script()
                    == bucket_groups[m].first().script() by {
                if k < old_r.len() {
                    assert(new_r[k] == old_r[k]);
                    let m = choose|m: int|
                        0 <= m < b && old_r[k].first().script()
                            == bucket_groups[m].first().script();
                    assert(0 <= m < b + 1 && new_r[k].first().script()
                        == bucket_groups[m].first().script());
                } else {
                    assert(0 <= b < b + 1 && new_r[k].first().script()
                        == bucket_groups[b as int].first().script());
                }
            }
        }
        b = b + 1;
    }
    proof {
        assert(bucket_groups.take(buckets@.len() as int) =~= bucket_groups);
    }
    r
}

} // verus!
