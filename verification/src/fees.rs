//! The per-input cost model: input weight, input fee and effective value.

use vstd::prelude::*;

use crate::primitives::fee_for_weight;
use crate::primitives::segwit_txin_base_weight;
use crate::primitives::spec_fee_for_weight;
use crate::sums::seq_sum;
use crate::types::WeightedUtxoV;

verus! {

/// Total weight of spending an input whose satisfaction costs
/// `satisfaction_weight` weight units: the empty segwit input comes on top.
pub open spec fn spec_input_weight(satisfaction_weight: u64) -> int {
    165 + satisfaction_weight
}

/// Fee of spending one input at `fee_rate` satoshis per 1000 weight units.
pub open spec fn spec_input_fee(fee_rate: u64, satisfaction_weight: u64) -> int {
    spec_fee_for_weight(fee_rate, spec_input_weight(satisfaction_weight))
}

/// The fee computation for one input stays within machine bounds.
pub open spec fn input_fee_fits(fee_rate: u64, satisfaction_weight: u64) -> bool {
    &&& satisfaction_weight + 165 <= u64::MAX
    &&& fee_rate * (165 + satisfaction_weight) + 999 <= u64::MAX
}

/// Fee of spending one input at `fee_rate`.
pub fn input_fee(fee_rate: u64, satisfaction_weight: u64) -> (fee: u64)
    requires
        input_fee_fits(fee_rate, satisfaction_weight),
    ensures
        fee == spec_input_fee(fee_rate, satisfaction_weight),
{
    let base = segwit_txin_base_weight();
    fee_for_weight(fee_rate, base + satisfaction_weight)
}

/// Value in satoshis of a weighted UTXO, as a sum contribution.
pub open spec fn value_of(w: WeightedUtxoV) -> int {
    w.value() as int
}

/// Input fee of a weighted UTXO at `fee_rate`, as a sum contribution.
pub open spec fn fee_of(fee_rate: u64) -> spec_fn(WeightedUtxoV) -> int {
    |w: WeightedUtxoV| spec_input_fee(fee_rate, w.satisfaction_weight)
}

/// Total value of a set of weighted UTXOs.
pub open spec fn sum_value(s: Seq<WeightedUtxoV>) -> int {
    seq_sum(s, |w: WeightedUtxoV| value_of(w))
}

/// Total input fee of a set of weighted UTXOs at `fee_rate`.
pub open spec fn sum_fee(s: Seq<WeightedUtxoV>, fee_rate: u64) -> int {
    seq_sum(s, fee_of(fee_rate))
}

/// Effective value of a weighted UTXO: its value minus the fee its spending
/// costs. May be negative.
pub open spec fn effective_value_of(fee_rate: u64, w: WeightedUtxoV) -> int {
    w.value() - spec_input_fee(fee_rate, w.satisfaction_weight)
}

pub proof fn lemma_fee_nonneg(fee_rate: u64, satisfaction_weight: u64)
    ensures
        spec_input_fee(fee_rate, satisfaction_weight) >= 0,
{
    vstd::arithmetic::mul::lemma_mul_nonnegative(
        fee_rate as int,
        165 + satisfaction_weight,
    );
}

/// Every input fee and every value contributes a non-negative amount.
pub proof fn lemma_fees_nonneg(s: Seq<WeightedUtxoV>, fee_rate: u64)
    ensures
        forall|k: int| 0 <= k < s.len() ==> #[trigger] fee_of(fee_rate)(s[k]) >= 0,
        forall|k: int| 0 <= k < s.len() ==> #[trigger] value_of(s[k]) >= 0,
{
    assert forall|k: int| 0 <= k < s.len() implies #[trigger] fee_of(fee_rate)(s[k]) >= 0 by {
        lemma_fee_nonneg(fee_rate, s[k].satisfaction_weight);
    }
}

/// Effective value at a fixed rate, as a sum contribution.
pub open spec fn eff_of_rate(fee_rate: u64) -> spec_fn(WeightedUtxoV) -> int {
    |w: WeightedUtxoV| effective_value_of(fee_rate, w)
}

/// The effective total is the total value minus the total fee.
pub proof fn lemma_eff_split(s: Seq<WeightedUtxoV>, fee_rate: u64)
    ensures
        seq_sum(s, eff_of_rate(fee_rate)) == sum_value(s) - sum_fee(s, fee_rate),
    decreases s.len(),
{
    if s.len() > 0 {
        lemma_eff_split(s.drop_last(), fee_rate);
    }
}

/// Every input fee of `s` stays within machine bounds at `fee_rate`.
pub open spec fn fees_fit(s: Seq<WeightedUtxoV>, fee_rate: u64) -> bool {
    forall|i: int| 0 <= i < s.len() ==> #[trigger] input_fee_fits(fee_rate, s[i].satisfaction_weight)
}

} // verus!
