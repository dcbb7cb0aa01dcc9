//! Behaviour of the branch-and-bound policy and its search.

use coin_select::bnb::BnbError;
use coin_select::bnb::BranchAndBoundCoinSelection;
use coin_select::bnb::OutputGroup;
use coin_select::policies::OldestFirstCoinSelection;
use coin_select::policies::SingleRandomDraw;
use coin_select::selection::CoinSelectionAlgorithm;
use coin_select::selection::CoinSelectionParams;
use coin_select::selection::InsufficientFunds;
use coin_select::selection::UniformRandom;
use coin_select::types::ChainPosition;
use coin_select::types::KeychainKind;
use coin_select::types::LocalOutput;
use coin_select::types::OutPoint;
use coin_select::types::TxOut;
use coin_select::types::Utxo;
use coin_select::types::WeightedUtxo;

use rand::rngs::StdRng;
use rand::Rng;
use rand::RngCore;
use rand::SeedableRng;

const P2WPKH_SATISFACTION_SIZE: u64 = 1 + 72 + 1 + 33;

const FEE_AMOUNT: u64 = 50;

const DO_NOT_AVOID_PARTIAL_SPENDS: bool = false;

fn rate_per_vb(sat_vb: u64) -> u64 {
    sat_vb * 250
}

struct SeededRand(StdRng);

impl UniformRandom for SeededRand {
    fn next_index(&mut self, bound: usize) -> usize {
        self.0.gen_range(0..bound)
    }
}

fn test_rng() -> SeededRand {
    SeededRand(StdRng::from_seed([7; 32]))
}

fn txid_bytes(index: u8) -> [u8; 32] {
    let mut t = [0u8; 32];
    t[31] = index;
    t
}

fn utxo(value: u64, index: u32, chain_position: ChainPosition) -> WeightedUtxo {
    assert!(index < 10);
    WeightedUtxo {
        satisfaction_weight: P2WPKH_SATISFACTION_SIZE,
        utxo: Utxo::Local(LocalOutput {
            outpoint: OutPoint::new(txid_bytes(index as u8), 0),
            txout: TxOut { value, script_pubkey: Vec::new() },
            keychain: KeychainKind::External,
            is_spent: false,
            derivation_index: 42,
            chain_position,
        }),
    }
}

fn unconfirmed_utxo(value: u64, index: u32, last_seen: u64) -> WeightedUtxo {
    utxo(value, index, ChainPosition::Unconfirmed { last_seen: Some(last_seen) })
}

fn get_test_utxos() -> Vec<WeightedUtxo> {
    vec![
        unconfirmed_utxo(100_000, 0, 0),
        unconfirmed_utxo(FEE_AMOUNT - 40, 1, 0),
        unconfirmed_utxo(200_000, 2, 0),
    ]
}

fn get_oldest_first_test_utxos() -> Vec<WeightedUtxo> {
    vec![
        utxo(120_000, 1, ChainPosition::Confirmed { height: 1, confirmation_time: 1231006505 }),
        utxo(80_000, 2, ChainPosition::Confirmed { height: 2, confirmation_time: 1231006505 }),
        utxo(300_000, 3, ChainPosition::Confirmed { height: 3, confirmation_time: 1231006505 }),
    ]
}

fn generate_same_value_utxos(utxos_value: u64, utxos_number: usize) -> Vec<WeightedUtxo> {
    (0..utxos_number)
        .map(|i| WeightedUtxo {
            satisfaction_weight: P2WPKH_SATISFACTION_SIZE,
            utxo: Utxo::Local(LocalOutput {
                outpoint: OutPoint::new([0xeb; 32], i as u32),
                txout: TxOut { value: utxos_value, script_pubkey: Vec::new() },
                keychain: KeychainKind::External,
                is_spent: false,
                derivation_index: 42,
                chain_position: ChainPosition::Unconfirmed { last_seen: Some(0) },
            }),
        })
        .collect()
}

fn generate_random_utxos(rng: &mut StdRng, utxos_number: usize) -> Vec<WeightedUtxo> {
    let mut res = Vec::new();
    for i in 0..utxos_number {
        res.push(WeightedUtxo {
            satisfaction_weight: P2WPKH_SATISFACTION_SIZE,
            utxo: Utxo::Local(LocalOutput {
                outpoint: OutPoint::new([0xeb; 32], i as u32),
                txout: TxOut {
                    value: rng.gen_range(0..200000000),
                    script_pubkey: Vec::new(),
                },
                keychain: KeychainKind::External,
                is_spent: false,
                derivation_index: rng.next_u32(),
                chain_position: if rng.gen_bool(0.5) {
                    ChainPosition::Confirmed {
                        height: rng.next_u32(),
                        confirmation_time: rng.next_u64(),
                    }
                } else {
                    ChainPosition::Unconfirmed { last_seen: Some(0) }
                },
            }),
        });
    }
    res
}

fn sum_random_utxos(rng: &mut StdRng, utxos: &mut Vec<WeightedUtxo>) -> u64 {
    let utxos_picked_len = rng.gen_range(2..utxos.len() / 2);
    for i in (1..utxos.len()).rev() {
        let j = rng.gen_range(0..=i);
        utxos.swap(i, j);
    }
    utxos[..utxos_picked_len]
        .iter()
        .map(|u| u.utxo.txout().value)
        .sum()
}

/// Sum of effective values at `fee_rate`, as an unsigned target.
fn calc_target_amount(utxos: &[WeightedUtxo], fee_rate: u64) -> u64 {
    utxos
        .iter()
        .cloned()
        .map(|utxo| OutputGroup::new(utxo, fee_rate).effective_value)
        .sum::<i64>()
        .try_into()
        .expect("unsigned amount")
}

fn params(
    required: Vec<WeightedUtxo>,
    optional: Vec<WeightedUtxo>,
    fee_rate: u64,
    target_amount: u64,
) -> CoinSelectionParams {
    CoinSelectionParams {
        required_utxos: required,
        optional_utxos: optional,
        fee_rate,
        target_amount,
        drain_script: Vec::new(),
        avoid_partial_spends: DO_NOT_AVOID_PARTIAL_SPENDS,
    }
}

#[test]
fn test_bnb_coin_selection_success() {
    // In this case the search won't find a suitable match and the random
    // draw will select three outputs
    let utxos = generate_same_value_utxos(100_000, 20);
    let target_amount = 250_000 + FEE_AMOUNT;
    let result = BranchAndBoundCoinSelection::default()
        .coin_select(params(vec![], utxos, rate_per_vb(1), target_amount), &mut test_rng())
        .unwrap();

    assert_eq!(result.selected.len(), 3);
    assert_eq!(result.selected_amount(), 300_000);
    assert_eq!(result.fee_amount, 204);
}

#[test]
fn test_bnb_coin_selection_required_are_enough() {
    let utxos = get_test_utxos();
    let target_amount = 20_000 + FEE_AMOUNT;
    let result = BranchAndBoundCoinSelection::default()
        .coin_select(
            params(utxos.clone(), utxos, rate_per_vb(1), target_amount),
            &mut test_rng(),
        )
        .unwrap();

    assert_eq!(result.selected.len(), 3);
    assert_eq!(result.selected_amount(), 300_010);
    assert_eq!(result.fee_amount, 204);
}

#[test]
fn test_bnb_coin_selection_optional_are_enough() {
    let utxos = get_test_utxos();
    let fee_rate = rate_per_vb(1);
    // first and third utxo's effective value
    let target_amount = calc_target_amount(&[utxos[0].clone(), utxos[2].clone()], fee_rate);

    let result = BranchAndBoundCoinSelection::default()
        .coin_select(params(vec![], utxos, fee_rate, target_amount), &mut test_rng())
        .unwrap();

    assert_eq!(result.selected.len(), 2);
    assert_eq!(result.selected_amount(), 300000);
    assert_eq!(result.fee_amount, 136);
}

#[test]
fn test_bnb_coin_selection_required_not_enough() {
    let utxos = get_test_utxos();

    let required = vec![utxos[0].clone()];
    let mut optional = utxos[1..].to_vec();
    optional.push(utxo(
        500_000,
        3,
        ChainPosition::Unconfirmed { last_seen: Some(0) },
    ));

    // Defensive assertions, for sanity and in case someone changes the
    // test utxos vector.
    let amount: u64 = required.iter().map(|u| u.utxo.txout().value).sum();
    assert_eq!(amount, 100_000);
    let amount: u64 = optional.iter().map(|u| u.utxo.txout().value).sum();
    assert!(amount > 150_000);

    let fee_rate = rate_per_vb(1);
    // first and third utxo's effective value
    let target_amount = calc_target_amount(&[utxos[0].clone(), utxos[2].clone()], fee_rate);

    let result = BranchAndBoundCoinSelection::default()
        .coin_select(params(required, optional, fee_rate, target_amount), &mut test_rng())
        .unwrap();

    assert_eq!(result.selected.len(), 2);
    assert_eq!(result.selected_amount(), 300_000);
    assert_eq!(result.fee_amount, 136);
}

#[test]
fn test_bnb_coin_selection_insufficient_funds() {
    let utxos = get_test_utxos();
    let target_amount = 500_000 + FEE_AMOUNT;
    let result = BranchAndBoundCoinSelection::default()
        .coin_select(params(vec![], utxos, rate_per_vb(1), target_amount), &mut test_rng());
    assert!(matches!(result, Err(InsufficientFunds { .. })));
}

#[test]
fn test_bnb_coin_selection_insufficient_funds_high_fees() {
    let utxos = get_test_utxos();
    let target_amount = 250_000 + FEE_AMOUNT;
    let result = BranchAndBoundCoinSelection::default()
        .coin_select(params(vec![], utxos, rate_per_vb(1000), target_amount), &mut test_rng());
    assert!(matches!(result, Err(InsufficientFunds { .. })));
}

#[test]
fn test_bnb_coin_selection_check_fee_rate() {
    let utxos = get_test_utxos();
    let fee_rate = rate_per_vb(1);
    // first utxo's effective value
    let target_amount = calc_target_amount(&utxos[0..1], fee_rate);

    let result = BranchAndBoundCoinSelection::default()
        .coin_select(params(vec![], utxos, fee_rate, target_amount), &mut test_rng())
        .unwrap();

    assert_eq!(result.selected.len(), 1);
    assert_eq!(result.selected_amount(), 100_000);
    let input_weight = 165 + P2WPKH_SATISFACTION_SIZE;
    // the final fee rate should be exactly the same as the fee rate given
    let result_feerate = bitcoin::Amount::from_sat(result.fee_amount)
        / bitcoin::Weight::from_wu(input_weight);
    assert_eq!(result_feerate, bitcoin::FeeRate::from_sat_per_kwu(fee_rate));
}

#[test]
fn test_bnb_coin_selection_exact_match() {
    let seed = [0; 32];
    let mut rng: StdRng = SeedableRng::from_seed(seed);

    for _i in 0..200 {
        let mut optional_utxos = generate_random_utxos(&mut rng, 16);
        let target_amount = sum_random_utxos(&mut rng, &mut optional_utxos);
        let result = BranchAndBoundCoinSelection::default()
            .coin_select(params(vec![], optional_utxos, 0, target_amount), &mut test_rng())
            .unwrap();
        assert_eq!(result.selected_amount(), target_amount);
    }
}

#[test]
fn test_bnb_function_no_exact_match() {
    let fee_rate = rate_per_vb(10);
    let utxos: Vec<OutputGroup> = get_test_utxos()
        .into_iter()
        .map(|u| OutputGroup::new(u, fee_rate))
        .collect();

    let curr_available_value = utxos.iter().map(|x| x.effective_value).sum::<i64>();

    let size_of_change: u64 = 31;
    let cost_of_change = ((size_of_change * 4 * fee_rate + 999) / 1000) as i64;

    let target_amount = 20_000 + FEE_AMOUNT as i64;
    let result = BranchAndBoundCoinSelection::new(size_of_change, SingleRandomDraw).bnb(
        vec![],
        utxos.into_iter().map(|u| vec![u]).collect(),
        0,
        curr_available_value,
        target_amount,
        cost_of_change,
        &Vec::new(),
        fee_rate,
    );
    assert!(matches!(result, Err(BnbError::NoExactMatch)));
}

#[test]
fn test_bnb_function_tries_exceeded() {
    let fee_rate = rate_per_vb(10);
    let utxos: Vec<OutputGroup> = generate_same_value_utxos(100_000, 100_000)
        .into_iter()
        .map(|u| OutputGroup::new(u, fee_rate))
        .collect();

    let curr_available_value = utxos.iter().map(|x| x.effective_value).sum::<i64>();

    let size_of_change: u64 = 31;
    let cost_of_change = (size_of_change * 4 * fee_rate + 999) / 1000;
    let target_amount = 20_000 + FEE_AMOUNT as i64;

    let result = BranchAndBoundCoinSelection::new(size_of_change, SingleRandomDraw).bnb(
        vec![],
        utxos.into_iter().map(|u| vec![u]).collect(),
        0,
        curr_available_value,
        target_amount,
        cost_of_change as i64,
        &Vec::new(),
        fee_rate,
    );
    assert!(matches!(result, Err(BnbError::TotalTriesExceeded)));
}

// The match won't be exact but still in the range
#[test]
fn test_bnb_function_almost_exact_match_with_fees() {
    let fee_rate = rate_per_vb(1);
    let size_of_change: u64 = 31;
    let cost_of_change: i64 = ((size_of_change * 4 * fee_rate + 999) / 1000) as i64;

    let utxos: Vec<_> = generate_same_value_utxos(50_000, 10)
        .into_iter()
        .map(|u| OutputGroup::new(u, fee_rate))
        .collect();

    let curr_value = 0;

    let curr_available_value = utxos.iter().map(|x| x.effective_value).sum::<i64>();

    // 2*(value of 1 utxo)  - 2*(1 utxo fees with 1.0sat/vbyte fee rate) -
    // cost_of_change + 5.
    let target_amount = 2 * 50_000 - 2 * 67 - cost_of_change + 5;

    let result = BranchAndBoundCoinSelection::new(size_of_change, SingleRandomDraw)
        .bnb(
            vec![],
            utxos.into_iter().map(|u| vec![u]).collect(),
            curr_value,
            curr_available_value,
            target_amount,
            cost_of_change,
            &Vec::new(),
            fee_rate,
        )
        .unwrap();
    assert_eq!(result.selected_amount(), 100_000);
    assert_eq!(result.fee_amount, 136);
}

#[test]
fn test_bnb_function_exact_match_more_utxos() {
    let seed = [0; 32];
    let mut rng: StdRng = SeedableRng::from_seed(seed);
    let fee_rate = 0;

    for _ in 0..200 {
        let optional_utxos: Vec<_> = generate_random_utxos(&mut rng, 40)
            .into_iter()
            .map(|u| OutputGroup::new(u, fee_rate))
            .collect();

        let curr_value = 0;

        let curr_available_value = optional_utxos.iter().map(|x| x.effective_value).sum::<i64>();

        let target_amount =
            optional_utxos[3].effective_value + optional_utxos[23].effective_value;

        let result = BranchAndBoundCoinSelection::default()
            .bnb(
                vec![],
                optional_utxos.into_iter().map(|u| vec![u]).collect(),
                curr_value,
                curr_available_value,
                target_amount,
                0,
                &Vec::new(),
                fee_rate,
            )
            .unwrap();
        assert_eq!(result.selected_amount() as i64, target_amount);
    }
}

#[test]
fn test_bnb_exclude_negative_effective_value() {
    let utxos = get_test_utxos();

    let selection = BranchAndBoundCoinSelection::default().coin_select(
        params(vec![], utxos, rate_per_vb(10), 500_000),
        &mut test_rng(),
    );

    assert!(matches!(
        selection,
        Err(InsufficientFunds { available, .. }) if available == 300_000
    ));
}

#[test]
fn test_bnb_include_negative_effective_value_when_required() {
    let utxos = get_test_utxos();

    let (required, optional): (Vec<_>, Vec<_>) = utxos
        .into_iter()
        .partition(|u| u.utxo.txout().value < 1000);

    let selection = BranchAndBoundCoinSelection::default().coin_select(
        params(required, optional, rate_per_vb(10), 500_000),
        &mut test_rng(),
    );

    assert!(matches!(
        selection,
        Err(InsufficientFunds { available, .. }) if available == 300_010
    ));
}

#[test]
fn test_bnb_sum_of_effective_value_negative() {
    let utxos = get_test_utxos();

    let selection = BranchAndBoundCoinSelection::default().coin_select(
        params(utxos, vec![], rate_per_vb(10_000), 500_000),
        &mut test_rng(),
    );

    assert!(matches!(
        selection,
        Err(InsufficientFunds { available, .. }) if available == 300_010
    ));
}

#[test]
fn test_bnb_fallback_algorithm() {
    // utxo value
    // 120k + 80k + 300k
    let optional_utxos = get_oldest_first_test_utxos();
    let feerate = rate_per_vb(1);
    let target_amount = 190_000;
    // the search won't find an exact match and should select oldest first
    let bnb_with_oldest_first = BranchAndBoundCoinSelection::new(8 + 1 + 22, OldestFirstCoinSelection);
    let res = bnb_with_oldest_first
        .coin_select(params(vec![], optional_utxos, feerate, target_amount), &mut test_rng())
        .unwrap();
    assert_eq!(res.selected_amount(), 200_000);
}
