//! The universal selection invariants, checked on concrete requests.

use coin_select::bnb::BranchAndBoundCoinSelection;
use coin_select::policies::LargestFirstCoinSelection;
use coin_select::policies::SingleRandomDraw;
use coin_select::selection::CoinSelectionAlgorithm;
use coin_select::selection::CoinSelectionParams;
use coin_select::selection::UniformRandom;
use coin_select::types::outpoint_eq;
use coin_select::types::ChainPosition;
use coin_select::types::KeychainKind;
use coin_select::types::LocalOutput;
use coin_select::types::OutPoint;
use coin_select::types::TxOut;
use coin_select::types::Utxo;
use coin_select::types::WeightedUtxo;

use rand::rngs::StdRng;
use rand::Rng;
use rand::SeedableRng;

struct SeededRand(StdRng);

impl UniformRandom for SeededRand {
    fn next_index(&mut self, bound: usize) -> usize {
        self.0.gen_range(0..bound)
    }
}

fn test_rng() -> SeededRand {
    SeededRand(StdRng::from_seed([3; 32]))
}

fn plain_utxo(value: u64, vout: u32, satisfaction_weight: u64) -> WeightedUtxo {
    WeightedUtxo {
        satisfaction_weight,
        utxo: Utxo::Local(LocalOutput {
            outpoint: OutPoint::new([0xab; 32], vout),
            txout: TxOut { value, script_pubkey: Vec::new() },
            keychain: KeychainKind::External,
            is_spent: false,
            derivation_index: 0,
            chain_position: ChainPosition::Unconfirmed { last_seen: None },
        }),
    }
}

fn input_fee(fee_rate: u64, satisfaction_weight: u64) -> u64 {
    (fee_rate * (165 + satisfaction_weight) + 999) / 1000
}

#[test]
fn invariant_selection_covers_target_plus_fees() {
    // weights differ, so the fee is a real sum over the selected inputs
    let required = vec![plain_utxo(40_000, 0, 107)];
    let optional = vec![
        plain_utxo(70_000, 1, 300),
        plain_utxo(25_000, 2, 50),
        plain_utxo(90_000, 3, 107),
    ];
    let fee_rate = 750;
    let target_amount = 120_000;
    let result = LargestFirstCoinSelection
        .coin_select(
            CoinSelectionParams {
                required_utxos: required.clone(),
                optional_utxos: optional.clone(),
                fee_rate,
                target_amount,
                drain_script: Vec::new(),
                avoid_partial_spends: false,
            },
            &mut test_rng(),
        )
        .unwrap();
    // the fee is the sum of the selected inputs' fees
    let pool = [required, optional].concat();
    let expected_fee: u64 = result
        .selected
        .iter()
        .map(|u| {
            let w = pool
                .iter()
                .find(|c| outpoint_eq(&c.utxo.outpoint(), &u.outpoint()))
                .unwrap();
            input_fee(fee_rate, w.satisfaction_weight)
        })
        .sum();
    assert_eq!(result.fee_amount, expected_fee);
    // and the selected value covers the target plus that fee
    assert!(result.selected_amount() >= target_amount + result.fee_amount);
}

#[test]
fn invariant_required_outpoints_are_selected() {
    let required = vec![plain_utxo(10, 0, 107), plain_utxo(20, 1, 107)];
    let optional = vec![plain_utxo(500_000, 2, 107)];
    let result = BranchAndBoundCoinSelection::<SingleRandomDraw>::new(31, SingleRandomDraw)
        .coin_select(
            CoinSelectionParams {
                required_utxos: required.clone(),
                optional_utxos: optional,
                fee_rate: 250,
                target_amount: 100_000,
                drain_script: Vec::new(),
                avoid_partial_spends: false,
            },
            &mut test_rng(),
        )
        .unwrap();
    for req in required.iter() {
        assert!(result
            .selected
            .iter()
            .any(|u| outpoint_eq(&u.outpoint(), &req.utxo.outpoint())));
    }
}

#[test]
fn invariant_no_duplicate_outpoints_selected() {
    let optional: Vec<WeightedUtxo> = (0..12).map(|i| plain_utxo(30_000, i, 107)).collect();
    let result = BranchAndBoundCoinSelection::<SingleRandomDraw>::new(31, SingleRandomDraw)
        .coin_select(
            CoinSelectionParams {
                required_utxos: vec![],
                optional_utxos: optional,
                fee_rate: 250,
                target_amount: 100_000,
                drain_script: Vec::new(),
                avoid_partial_spends: false,
            },
            &mut test_rng(),
        )
        .unwrap();
    for i in 0..result.selected.len() {
        for j in (i + 1)..result.selected.len() {
            assert!(!outpoint_eq(
                &result.selected[i].outpoint(),
                &result.selected[j].outpoint()
            ));
        }
    }
}

#[test]
fn invariant_bnb_hit_lies_within_tolerance() {
    // ten equal coins; the target is reachable within the cost of change
    let optional: Vec<WeightedUtxo> = (0..10).map(|i| plain_utxo(50_000, i, 107)).collect();
    let fee_rate = 250;
    let cost_of_change = (31 * 4 * fee_rate + 999) / 1000;
    let target_amount = 2 * (50_000 - 68) - cost_of_change + 5;
    let result = BranchAndBoundCoinSelection::<SingleRandomDraw>::new(31, SingleRandomDraw)
        .coin_select(
            CoinSelectionParams {
                required_utxos: vec![],
                optional_utxos: optional,
                fee_rate,
                target_amount,
                drain_script: Vec::new(),
                avoid_partial_spends: false,
            },
            &mut test_rng(),
        )
        .unwrap();
    // the selection's effective value lies between the target and the
    // target plus the assumed cost of a change output
    let effective = result.selected_amount() - result.fee_amount;
    assert!(target_amount <= effective);
    assert!(effective <= target_amount + cost_of_change);
}
