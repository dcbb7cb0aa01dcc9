//! Calls into the Bitcoin primitives layer.
//!
//! Everything the selection logic needs from the `bitcoin` crate is reached
//! through the functions of this module; each states the behaviour of the
//! call it makes, and the rest of the library is verified against those
//! statements.

use vstd::prelude::*;

verus! {

/// Length in bytes of the compact-size prefix that Bitcoin consensus
/// encoding puts before a byte string of length `n`.
pub open spec fn compact_size_len(n: nat) -> int {
    if n < 253 {
        1
    } else if n < 0x1_0000 {
        3
    } else if n < 0x1_0000_0000 {
        5
    } else {
        9
    }
}

/// The fee, in satoshis, that `weight_units` cost at `fee_rate` satoshis per
/// 1000 weight units, rounded up so the fee is never under-estimated.
pub open spec fn spec_fee_for_weight(fee_rate: u64, weight_units: int) -> int {
    (fee_rate * weight_units + 999) / 1000
}

/// Relies on `TxIn::default().segwit_weight()`: the weight of a transaction
/// input with an empty script-sig and an empty witness, which is 41 base
/// bytes (36 outpoint + 1 script length + 4 sequence) at 4 weight units
/// each, plus 1 weight unit for the empty witness's length byte.
#[verifier::external_body]
pub fn segwit_txin_base_weight() -> (w: u64)
    ensures
        w == 165,
{
    bitcoin::TxIn::default().segwit_weight().to_wu()
}

/// Relies on `FeeRate::checked_mul_by_weight`: the fee for a weight is the
/// rate (in satoshis per 1000 weight units) times the weight units, divided
/// by 1000 rounding up; `None` is returned only on arithmetic overflow,
/// which the precondition rules out.
#[verifier::external_body]
pub fn fee_for_weight(fee_rate: u64, weight_units: u64) -> (fee: u64)
    requires
        fee_rate * weight_units + 999 <= u64::MAX,
    ensures
        fee == spec_fee_for_weight(fee_rate, weight_units as int),
{
    bitcoin::FeeRate::from_sat_per_kwu(fee_rate)
        .checked_mul_by_weight(bitcoin::Weight::from_wu(weight_units))
        .expect("fee computation overflowed")
        .to_sat()
}

/// Relies on `bitcoin::consensus::encode::serialize` of a script: consensus
/// encoding of a byte string is its compact-size length prefix followed by
/// the bytes themselves.
#[verifier::external_body]
pub fn serialized_script_len(script: &Vec<u8>) -> (n: u64)
    requires
        script@.len() + 9 <= u64::MAX,
    ensures
        n == script@.len() + compact_size_len(script@.len()),
{
    bitcoin::consensus::encode::serialize(bitcoin::Script::from_bytes(script.as_slice())).len()
        as u64
}

/// The minimal value, in satoshis, that an output locked under `script` must
/// exceed in order not to be considered dust. A function of the script bytes
/// alone (the dust relay rate it uses is a constant of the primitives layer).
pub uninterp spec fn spec_dust_threshold(script: Seq<u8>) -> u64;

/// Relies on `Script::minimal_non_dust`: the standard minimal non-dust value
/// for a script, which depends only on the script bytes. The precondition
/// keeps the script short enough that the internal fee computation cannot
/// overflow.
#[verifier::external_body]
pub fn dust_threshold(script: &Vec<u8>) -> (d: u64)
    requires
        script@.len() <= 0x2000_0000,
    ensures
        d == spec_dust_threshold(script@),
{
    bitcoin::Script::from_bytes(script.as_slice()).minimal_non_dust().to_sat()
}

} // verus!
