//! The request and response shapes of a coin selection, and the interface
//! every selection policy satisfies.

use vstd::prelude::*;

use crate::change::spec_decide_change;
use crate::change::change_fee_fits;
use crate::change::Excess;
use crate::fees::fees_fit;
use crate::fees::sum_fee;
use crate::fees::sum_value;
use crate::sums::seq_sum;
use crate::types::utxo_views;
use crate::types::wu_views;
use crate::types::Utxo;
use crate::types::UtxoV;
use crate::types::WeightedUtxo;
use crate::types::WeightedUtxoV;

verus! {

/// The UTXO set cannot cover the requested amount plus fees.
#[derive(Clone, Copy, Debug, PartialEq, Eq, Structural)]
pub struct InsufficientFunds {
    /// Amount needed for the transaction, fees included.
    pub needed: u64,
    /// Amount available for spending.
    pub available: u64,
}

/// A successful coin selection.
pub struct CoinSelectionResult {
    /// The UTXOs chosen as inputs.
    pub selected: Vec<Utxo>,
    /// Total fee paid for spending the selected UTXOs.
    pub fee_amount: u64,
    /// What to do with the amount left over.
    pub excess: Excess,
    /// The chosen UTXOs with their weights, for reasoning: `selected` is
    /// exactly these UTXOs and `fee_amount` their input fees.
    pub chosen: Ghost<Seq<WeightedUtxoV>>,
}

/// Value in satoshis of a list of UTXOs.
pub open spec fn utxo_sum_value(s: Seq<UtxoV>) -> int {
    seq_sum(s, |u: UtxoV| u.value() as int)
}

/// Value in satoshis of the local (wallet-owned) UTXOs of a list.
pub open spec fn utxo_sum_local_value(s: Seq<UtxoV>) -> int {
    seq_sum(
        s,
        |u: UtxoV| if u is Local {
            u.value() as int
        } else {
            0
        },
    )
}

impl CoinSelectionResult {
    /// The total value of the selected inputs.
    pub fn selected_amount(&self) -> (r: u64)
        requires
            utxo_sum_value(utxo_views(self.selected@)) <= u64::MAX,
        ensures
            r == utxo_sum_value(utxo_views(self.selected@)),
    {
        let views = Ghost(utxo_views(self.selected@));
        let mut total: u64 = 0;
        let mut i: usize = 0;
        while i < self.selected.len()
            invariant
                0 <= i <= self.selected.len(),
                views@ == utxo_views(self.selected@),
                utxo_sum_value(views@) <= u64::MAX,
                total == utxo_sum_value(views@.take(i as int)),
            decreases self.selected.len() - i,
        {
            proof {
                crate::sums::lemma_seq_sum_push(
                    views@.take(i as int),
                    views@[i as int],
                    |u: UtxoV| u.value() as int,
                );
                assert(views@.take(i + 1) =~= views@.take(i as int).push(views@[i as int]));
                lemma_utxo_sum_prefix_bound(views@, i + 1);
                crate::sums::lemma_seq_sum_nonneg(views@.take(i as int), |u: UtxoV| u.value() as int);
            }
            total = total + self.selected[i].txout().value;
            i = i + 1;
        }
        proof {
            assert(views@.take(self.selected@.len() as int) =~= views@);
        }
        total
    }

    /// The total value of the selected inputs owned by the wallet.
    pub fn local_selected_amount(&self) -> (r: u64)
        requires
            utxo_sum_value(utxo_views(self.selected@)) <= u64::MAX,
        ensures
            r == utxo_sum_local_value(utxo_views(self.selected@)),
    {
        let views = Ghost(utxo_views(self.selected@));
        let ghost f = |u: UtxoV| if u is Local {
            u.value() as int
        } else {
            0
        };
        let mut total: u64 = 0;
        let mut i: usize = 0;
        while i < self.selected.len()
            invariant
                0 <= i <= self.selected.len(),
                views@ == utxo_views(self.selected@),
                utxo_sum_value(views@) <= u64::MAX,
                f == (|u: UtxoV| if u is Local {
                    u.value() as int
                } else {
                    0
                }),
                total == seq_sum(views@.take(i as int), f),
            decreases self.selected.len() - i,
        {
            proof {
                crate::sums::lemma_seq_sum_push(views@.take(i as int), views@[i as int], f);
                assert(views@.take(i + 1) =~= views@.take(i as int).push(views@[i as int]));
                lemma_utxo_local_le_value(views@, i + 1);
                lemma_utxo_local_le_value(views@, i as int);
                lemma_utxo_sum_prefix_bound(views@, i + 1);
            }
            match &self.selected[i] {
                Utxo::Local(local) => {
                    total = total + local.txout.value;
                },
                Utxo::Foreign { .. } => {
                },
            }
            i = i + 1;
        }
        proof {
            assert(views@.take(self.selected@.len() as int) =~= views@);
        }
        total
    }
}

proof fn lemma_utxo_sum_prefix_bound(s: Seq<UtxoV>, n: int)
    requires
        0 <= n <= s.len(),
    ensures
        utxo_sum_value(s.take(n)) <= utxo_sum_value(s),
    decreases s.len() - n,
{
    if n < s.len() {
        lemma_utxo_sum_prefix_bound(s, n + 1);
        crate::sums::lemma_seq_sum_push(s.take(n), s[n], |u: UtxoV| u.value() as int);
        assert(s.take(n + 1) =~= s.take(n).push(s[n]));
    } else {
        assert(s.take(n) =~= s);
    }
}

proof fn lemma_utxo_local_le_value(s: Seq<UtxoV>, n: int)
    requires
        0 <= n <= s.len(),
    ensures
        seq_sum(
            s.take(n),
            |u: UtxoV| if u is Local {
                u.value() as int
            } else {
                0
            },
        ) <= utxo_sum_value(s.take(n)),
        seq_sum(
            s.take(n),
            |u: UtxoV| if u is Local {
                u.value() as int
            } else {
                0
            },
        ) >= 0,
    decreases n,
{
    if n > 0 {
        lemma_utxo_local_le_value(s, n - 1);
        assert(s.take(n).drop_last() =~= s.take(n - 1));
    }
}

/// A coin selection request.
#[derive(Debug)]
pub struct CoinSelectionParams {
    /// UTXOs that must be spent regardless of the target.
    pub required_utxos: Vec<WeightedUtxo>,
    /// UTXOs the policy may draw from to reach the target.
    pub optional_utxos: Vec<WeightedUtxo>,
    /// Fee rate, in satoshis per 1000 weight units.
    pub fee_rate: u64,
    /// The outgoing amount plus the fees already accumulated for outputs and
    /// header; the selection adds only input fees on top.
    pub target_amount: u64,
    /// The script a change output would use.
    pub drain_script: Vec<u8>,
    /// Whether to spend all UTXOs of an address together.
    pub avoid_partial_spends: bool,
}

/// Mathematical value of a [`CoinSelectionParams`].
pub struct CoinSelectionParamsV {
    pub required: Seq<WeightedUtxoV>,
    pub optional: Seq<WeightedUtxoV>,
    pub fee_rate: u64,
    pub target_amount: u64,
    pub drain_script: Seq<u8>,
    pub avoid_partial_spends: bool,
}

impl View for CoinSelectionParams {
    type V = CoinSelectionParamsV;

    open spec fn view(&self) -> CoinSelectionParamsV {
        CoinSelectionParamsV {
            required: wu_views(self.required_utxos@),
            optional: wu_views(self.optional_utxos@),
            fee_rate: self.fee_rate,
            target_amount: self.target_amount,
            drain_script: self.drain_script@,
            avoid_partial_spends: self.avoid_partial_spends,
        }
    }
}

/// The machine bounds every selection request must respect: each input fee
/// computation fits, total value plus total fee fits a signed amount, the
/// target fits a signed amount, and the change fee computation fits.
pub open spec fn params_wf(p: CoinSelectionParamsV) -> bool {
    &&& fees_fit(p.required + p.optional, p.fee_rate)
    &&& sum_value(p.required + p.optional) + sum_fee(p.required + p.optional, p.fee_rate)
        <= i64::MAX
    &&& p.target_amount <= i64::MAX
    &&& change_fee_fits(p.fee_rate, p.drain_script)
}

/// What every selection policy guarantees.
///
/// On success: the selected UTXOs are the chosen weighted UTXOs; the fee is
/// exactly the sum of their input fees; their value covers the target plus
/// that fee; every required UTXO is among them; they are drawn from the
/// request's UTXOs, none more than once; and the excess verdict is the
/// change decision over the leftover. On failure, the request's UTXOs
/// all together cannot cover the target plus their own fees.
pub open spec fn universal_post(
    p: CoinSelectionParamsV,
    r: Result<CoinSelectionResult, InsufficientFunds>,
) -> bool {
    match r {
        Ok(res) => {
            &&& utxo_views(res.selected@) == res.chosen@.map_values(|w: WeightedUtxoV| w.utxo)
            &&& res.fee_amount == sum_fee(res.chosen@, p.fee_rate)
            &&& sum_value(res.chosen@) >= p.target_amount + res.fee_amount
            &&& p.required.to_multiset().subset_of(res.chosen@.to_multiset())
            &&& res.chosen@.to_multiset().subset_of((p.required + p.optional).to_multiset())
            &&& res.excess == spec_decide_change(
                (sum_value(res.chosen@) - (p.target_amount + res.fee_amount)) as u64,
                p.fee_rate,
                p.drain_script,
            )
        },
        Err(_) => sum_value(p.required + p.optional) < p.target_amount + sum_fee(
            p.required + p.optional,
            p.fee_rate,
        ),
    }
}

/// A uniform random source, consumed by the random selection policies.
///
/// The wallet's caller supplies the implementation; each draw must fall
/// strictly under the given bound.
pub trait UniformRandom {
    /// Draw a uniformly distributed index strictly below `bound`.
    fn next_index(&mut self, bound: usize) -> (r: usize)
        requires
            bound > 0,
        ensures
            r < bound,
    ;
}

/// A coin selection policy.
pub trait CoinSelectionAlgorithm<R: UniformRandom>: Sized {
    /// What this policy asks of a request, beyond the common bounds.
    spec fn pre(&self, p: CoinSelectionParamsV) -> bool;

    /// Perform the coin selection.
    fn coin_select(&self, params: CoinSelectionParams, rng: &mut R) -> (r: Result<
        CoinSelectionResult,
        InsufficientFunds,
    >)
        requires
            params_wf(params@),
            self.pre(params@),
        ensures
            universal_post(params@, r),
    ;
}

} // verus!
