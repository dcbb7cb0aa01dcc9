//! Deciding whether the amount left over by a selection is worth a change
//! output, or whether it is dust that is silently added to the fee.

use vstd::prelude::*;

use crate::primitives::compact_size_len;
use crate::primitives::dust_threshold;
use crate::primitives::fee_for_weight;
use crate::primitives::serialized_script_len;
use crate::primitives::spec_dust_threshold;
use crate::primitives::spec_fee_for_weight;

verus! {

/// Remaining amount after a selection, and what to do with it.
#[derive(Clone, Copy, Debug, PartialEq, Eq, Structural)]
pub enum Excess {
    /// The leftover cannot fund a spendable change output: it goes to fees.
    NoChange {
        /// Minimal non-dust value for the drain script.
        dust_threshold: u64,
        /// The whole leftover of the selection.
        remaining_amount: u64,
        /// Fee a change output would have cost.
        change_fee: u64,
    },
    /// A change output should be created.
    Change {
        /// Value of the change output, after its own fee.
        amount: u64,
        /// Fee the change output costs.
        fee: u64,
    },
}

/// Weight in weight units of a change output using `script`: the serialized
/// script plus the 8-byte value field, at 4 weight units per byte.
pub open spec fn spec_drain_weight(script: Seq<u8>) -> int {
    4 * (compact_size_len(script.len()) + script.len() + 8)
}

/// Fee of adding a change output using `script` at `fee_rate`.
pub open spec fn spec_change_fee(fee_rate: u64, script: Seq<u8>) -> int {
    spec_fee_for_weight(fee_rate, spec_drain_weight(script))
}

/// The change-fee computation for `script` stays within machine bounds.
pub open spec fn change_fee_fits(fee_rate: u64, script: Seq<u8>) -> bool {
    &&& script.len() <= 0x2000_0000
    &&& fee_rate * spec_drain_weight(script) + 999 <= u64::MAX
}

/// What [`decide_change`] returns: if the leftover minus the change fee
/// stays at or under the dust threshold of the script, no change is made;
/// otherwise a change output carrying the leftover minus the fee.
pub open spec fn spec_decide_change(remaining: u64, fee_rate: u64, script: Seq<u8>) -> Excess {
    let change_fee = spec_change_fee(fee_rate, script);
    let drain_value: int = if remaining >= change_fee {
        remaining - change_fee
    } else {
        0
    };
    if drain_value <= spec_dust_threshold(script) {
        Excess::NoChange {
            dust_threshold: spec_dust_threshold(script),
            remaining_amount: remaining,
            change_fee: change_fee as u64,
        }
    } else {
        Excess::Change { amount: drain_value as u64, fee: change_fee as u64 }
    }
}

/// Decide whether `remaining_amount` can fund a change output under
/// `drain_script` at `fee_rate`.
///
/// If change is created, its amount is strictly above the dust threshold and
/// amount plus change fee give back the whole leftover; otherwise the
/// leftover net of the change fee was dust.
pub fn decide_change(remaining_amount: u64, fee_rate: u64, drain_script: &Vec<u8>) -> (r: Excess)
    requires
        change_fee_fits(fee_rate, drain_script@),
    ensures
        r == spec_decide_change(remaining_amount, fee_rate, drain_script@),
        r matches Excess::Change { amount, fee } ==> amount > spec_dust_threshold(drain_script@)
            && amount + fee == remaining_amount,
        r matches Excess::NoChange { dust_threshold, remaining_amount: rem, change_fee } ==> {
            &&& dust_threshold == spec_dust_threshold(drain_script@)
            &&& rem == remaining_amount
            &&& (rem >= change_fee ==> rem - change_fee <= dust_threshold)
            &&& (rem < change_fee ==> 0 <= dust_threshold)
        },
{
    let serialized_len = serialized_script_len(drain_script);
    let drain_weight = (serialized_len + 8) * 4;
    let change_fee = fee_for_weight(fee_rate, drain_weight);
    let drain_value = if remaining_amount >= change_fee {
        remaining_amount - change_fee
    } else {
        0
    };
    let threshold = dust_threshold(drain_script);
    if drain_value <= threshold {
        Excess::NoChange {
            dust_threshold: threshold,
            remaining_amount,
            change_fee,
        }
    } else {
        Excess::Change { amount: drain_value, fee: change_fee }
    }
}

} // verus!
