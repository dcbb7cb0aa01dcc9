//! Selection behaviour of the greedy policies.

use coin_select::change::Excess;
use coin_select::policies::LargestFirstCoinSelection;
use coin_select::policies::OldestFirstCoinSelection;
use coin_select::policies::SingleRandomDraw;
use coin_select::selection::CoinSelectionAlgorithm;
use coin_select::selection::CoinSelectionParams;
use coin_select::selection::InsufficientFunds;
use coin_select::selection::UniformRandom;
use coin_select::types::ChainPosition;
use coin_select::types::KeychainKind;
use coin_select::types::LocalOutput;
use coin_select::types::OutPoint;
use coin_select::types::TxOut;
use coin_select::types::Utxo;
use coin_select::types::WeightedUtxo;

use rand::rngs::StdRng;
use rand::Rng;
use rand::RngCore;
use rand::SeedableRng;

// signature len (1WU) + signature and sighash (72WU)
// + pubkey len (1WU) + pubkey (33WU)
const P2WPKH_SATISFACTION_SIZE: u64 = 1 + 72 + 1 + 33;

const FEE_AMOUNT: u64 = 50;

const DO_NOT_AVOID_PARTIAL_SPENDS: bool = false;

/// Satoshis per 1000 weight units for a whole-number sat/vB rate.
fn rate_per_vb(sat_vb: u64) -> u64 {
    sat_vb * 250
}

struct SeededRand(StdRng);

impl UniformRandom for SeededRand {
    fn next_index(&mut self, bound: usize) -> usize {
        self.0.gen_range(0..bound)
    }
}

fn test_rng() -> SeededRand {
    SeededRand(StdRng::from_seed([7; 32]))
}

fn txid_bytes(index: u8) -> [u8; 32] {
    let mut t = [0u8; 32];
    t[31] = index;
    t
}

fn utxo(value: u64, index: u32, chain_position: ChainPosition) -> WeightedUtxo {
    assert!(index < 10);
    WeightedUtxo {
        satisfaction_weight: P2WPKH_SATISFACTION_SIZE,
        utxo: Utxo::Local(LocalOutput {
            outpoint: OutPoint::new(txid_bytes(index as u8), 0),
            txout: TxOut { value, script_pubkey: Vec::new() },
            keychain: KeychainKind::External,
            is_spent: false,
            derivation_index: 42,
            chain_position,
        }),
    }
}

fn unconfirmed_utxo(value: u64, index: u32, last_seen: u64) -> WeightedUtxo {
    utxo(value, index, ChainPosition::Unconfirmed { last_seen: Some(last_seen) })
}

fn confirmed_utxo(
    value: u64,
    index: u32,
    confirmation_height: u32,
    confirmation_time: u64,
) -> WeightedUtxo {
    utxo(
        value,
        index,
        ChainPosition::Confirmed { height: confirmation_height, confirmation_time },
    )
}

fn get_test_utxos() -> Vec<WeightedUtxo> {
    vec![
        unconfirmed_utxo(100_000, 0, 0),
        unconfirmed_utxo(FEE_AMOUNT - 40, 1, 0),
        unconfirmed_utxo(200_000, 2, 0),
    ]
}

fn get_oldest_first_test_utxos() -> Vec<WeightedUtxo> {
    // ensure utxos are from different tx
    let utxo1 = confirmed_utxo(120_000, 1, 1, 1231006505);
    let utxo2 = confirmed_utxo(80_000, 2, 2, 1231006505);
    let utxo3 = confirmed_utxo(300_000, 3, 3, 1231006505);
    vec![utxo1, utxo2, utxo3]
}

fn shared_script_utxo(value: u64, vout: u32, script: Vec<u8>) -> WeightedUtxo {
    WeightedUtxo {
        satisfaction_weight: P2WPKH_SATISFACTION_SIZE,
        utxo: Utxo::Local(LocalOutput {
            outpoint: OutPoint::new([0xeb; 32], vout),
            txout: TxOut { value, script_pubkey: script },
            keychain: KeychainKind::External,
            is_spent: false,
            derivation_index: 42,
            chain_position: ChainPosition::Unconfirmed { last_seen: Some(0) },
        }),
    }
}

fn generate_utxos_with_same_address() -> Vec<WeightedUtxo> {
    // Two distinct scripts to simulate two addresses: A and B.
    vec![
        shared_script_utxo(1_000_000_000, 0, vec![b'A']),
        shared_script_utxo(500_000_000, 1, vec![b'A']),
        shared_script_utxo(1_000_000_000, 2, vec![b'B']),
        shared_script_utxo(500_000_000, 3, vec![b'B']),
    ]
}

fn generate_random_utxos(rng: &mut StdRng, utxos_number: usize) -> Vec<WeightedUtxo> {
    let mut res = Vec::new();
    for i in 0..utxos_number {
        res.push(WeightedUtxo {
            satisfaction_weight: P2WPKH_SATISFACTION_SIZE,
            utxo: Utxo::Local(LocalOutput {
                outpoint: OutPoint::new([0xeb; 32], i as u32),
                txout: TxOut {
                    value: rng.gen_range(0..200000000),
                    script_pubkey: Vec::new(),
                },
                keychain: KeychainKind::External,
                is_spent: false,
                derivation_index: rng.next_u32(),
                chain_position: if rng.gen_bool(0.5) {
                    ChainPosition::Confirmed {
                        height: rng.next_u32(),
                        confirmation_time: rng.next_u64(),
                    }
                } else {
                    ChainPosition::Unconfirmed { last_seen: Some(0) }
                },
            }),
        });
    }
    res
}

fn sum_random_utxos(rng: &mut StdRng, utxos: &mut Vec<WeightedUtxo>) -> u64 {
    let utxos_picked_len = rng.gen_range(2..utxos.len() / 2);
    // shuffle by repeated swaps driven by the rng
    for i in (1..utxos.len()).rev() {
        let j = rng.gen_range(0..=i);
        utxos.swap(i, j);
    }
    utxos[..utxos_picked_len]
        .iter()
        .map(|u| u.utxo.txout().value)
        .sum()
}

fn params(
    required: Vec<WeightedUtxo>,
    optional: Vec<WeightedUtxo>,
    fee_rate: u64,
    target_amount: u64,
) -> CoinSelectionParams {
    CoinSelectionParams {
        required_utxos: required,
        optional_utxos: optional,
        fee_rate,
        target_amount,
        drain_script: Vec::new(),
        avoid_partial_spends: DO_NOT_AVOID_PARTIAL_SPENDS,
    }
}

#[test]
fn test_largest_first_coin_selection_success() {
    let utxos = get_test_utxos();
    let target_amount = 250_000 + FEE_AMOUNT;
    let result = LargestFirstCoinSelection
        .coin_select(params(utxos, vec![], rate_per_vb(1), target_amount), &mut test_rng())
        .unwrap();

    assert_eq!(result.selected.len(), 3);
    assert_eq!(result.selected_amount(), 300_010);
    assert_eq!(result.fee_amount, 204);
}

#[test]
fn test_largest_first_coin_selection_use_all() {
    let utxos = get_test_utxos();
    let target_amount = 20_000 + FEE_AMOUNT;
    let result = LargestFirstCoinSelection
        .coin_select(params(utxos, vec![], rate_per_vb(1), target_amount), &mut test_rng())
        .unwrap();

    assert_eq!(result.selected.len(), 3);
    assert_eq!(result.selected_amount(), 300_010);
    assert_eq!(result.fee_amount, 204);
}

#[test]
fn test_largest_first_coin_selection_use_only_necessary() {
    let utxos = get_test_utxos();
    let target_amount = 20_000 + FEE_AMOUNT;
    let result = LargestFirstCoinSelection
        .coin_select(params(vec![], utxos, rate_per_vb(1), target_amount), &mut test_rng())
        .unwrap();

    assert_eq!(result.selected.len(), 1);
    assert_eq!(result.selected_amount(), 200_000);
    assert_eq!(result.fee_amount, 68);
}

#[test]
fn test_largest_first_coin_selection_insufficient_funds() {
    let utxos = get_test_utxos();
    let target_amount = 500_000 + FEE_AMOUNT;
    let result = LargestFirstCoinSelection
        .coin_select(params(vec![], utxos, rate_per_vb(1), target_amount), &mut test_rng());
    assert!(matches!(result, Err(InsufficientFunds { .. })));
}

#[test]
fn test_largest_first_coin_selection_insufficient_funds_high_fees() {
    let utxos = get_test_utxos();
    let target_amount = 250_000 + FEE_AMOUNT;
    let result = LargestFirstCoinSelection
        .coin_select(params(vec![], utxos, rate_per_vb(1000), target_amount), &mut test_rng());
    assert!(matches!(result, Err(InsufficientFunds { .. })));
}

#[test]
fn test_oldest_first_coin_selection_success() {
    let utxos = get_oldest_first_test_utxos();
    let target_amount = 180_000 + FEE_AMOUNT;
    let result = OldestFirstCoinSelection
        .coin_select(params(vec![], utxos, rate_per_vb(1), target_amount), &mut test_rng())
        .unwrap();

    assert_eq!(result.selected.len(), 2);
    assert_eq!(result.selected_amount(), 200_000);
    assert_eq!(result.fee_amount, 136);
}

#[test]
fn test_oldest_first_coin_selection_use_all() {
    let utxos = get_oldest_first_test_utxos();
    let target_amount = 20_000 + FEE_AMOUNT;
    let result = OldestFirstCoinSelection
        .coin_select(params(utxos, vec![], rate_per_vb(1), target_amount), &mut test_rng())
        .unwrap();

    assert_eq!(result.selected.len(), 3);
    assert_eq!(result.selected_amount(), 500_000);
    assert_eq!(result.fee_amount, 204);
}

#[test]
fn test_oldest_first_coin_selection_use_only_necessary() {
    let utxos = get_oldest_first_test_utxos();
    let target_amount = 20_000 + FEE_AMOUNT;
    let result = OldestFirstCoinSelection
        .coin_select(params(vec![], utxos, rate_per_vb(1), target_amount), &mut test_rng())
        .unwrap();

    assert_eq!(result.selected.len(), 1);
    assert_eq!(result.selected_amount(), 120_000);
    assert_eq!(result.fee_amount, 68);
}

#[test]
fn test_oldest_first_coin_selection_insufficient_funds() {
    let utxos = get_oldest_first_test_utxos();
    let target_amount = 600_000 + FEE_AMOUNT;
    let result = OldestFirstCoinSelection
        .coin_select(params(vec![], utxos, rate_per_vb(1), target_amount), &mut test_rng());
    assert!(matches!(result, Err(InsufficientFunds { .. })));
}

#[test]
fn test_oldest_first_coin_selection_insufficient_funds_high_fees() {
    let utxos = get_oldest_first_test_utxos();
    let target_amount: u64 =
        utxos.iter().map(|wu| wu.utxo.txout().value).sum::<u64>() - 50;
    let result = OldestFirstCoinSelection
        .coin_select(params(vec![], utxos, rate_per_vb(1000), target_amount), &mut test_rng());
    assert!(matches!(result, Err(InsufficientFunds { .. })));
}

#[test]
fn test_single_random_draw_function_success() {
    let seed = [0; 32];
    let mut rng: StdRng = SeedableRng::from_seed(seed);
    let mut utxos = generate_random_utxos(&mut rng, 300);
    let target_amount = sum_random_utxos(&mut rng, &mut utxos) + FEE_AMOUNT;
    let result = SingleRandomDraw
        .coin_select(params(vec![], utxos, rate_per_vb(1), target_amount), &mut test_rng());

    assert!(matches!(result, Ok(res)
        if res.selected.iter().map(|u| u.txout().value).sum::<u64>() > target_amount
            && res.fee_amount == res.selected.len() as u64 * 68));
}

#[test]
fn test_single_random_draw_function_error() {
    let seed = [0; 32];
    let mut rng = SeededRand(SeedableRng::from_seed(seed));

    // 100_000, 10, 200_000
    let utxos = get_test_utxos();
    let target_amount = 300_000 + FEE_AMOUNT;
    let result = SingleRandomDraw
        .coin_select(params(vec![], utxos, rate_per_vb(1), target_amount), &mut rng);

    assert!(matches!(result, Err(InsufficientFunds { needed, available })
        if needed == 300_254 && available == 300_010));
}

#[test]
fn test_deterministic_coin_selection_picks_same_utxos() {
    enum CoinSelectionAlgo {
        BranchAndBound,
        OldestFirst,
        LargestFirst,
    }

    struct TestCase<'a> {
        name: &'a str,
        coin_selection_algo: CoinSelectionAlgo,
        exp_vouts: &'a [u32],
    }

    let test_cases = [
        TestCase {
            name: "branch and bound",
            coin_selection_algo: CoinSelectionAlgo::BranchAndBound,
            // note: we expect these to be sorted largest first, which
            // indicates the search succeeded with no fallback
            exp_vouts: &[29, 28, 27],
        },
        TestCase {
            name: "oldest first",
            coin_selection_algo: CoinSelectionAlgo::OldestFirst,
            exp_vouts: &[0, 1, 2],
        },
        TestCase {
            name: "largest first",
            coin_selection_algo: CoinSelectionAlgo::LargestFirst,
            exp_vouts: &[29, 28, 27],
        },
    ];

    let optional: Vec<WeightedUtxo> =
        (0..30).map(|i| shared_script_utxo(100_000, i, Vec::new())).collect();
    let fee_rate = rate_per_vb(1);
    // three effective values at one sat per virtual byte
    let target_amount = 3 * (100_000 - 68);
    assert_eq!(target_amount, 299_796);

    for tc in test_cases {
        let optional = optional.clone();

        let result = match tc.coin_selection_algo {
            CoinSelectionAlgo::BranchAndBound => {
                coin_select::bnb::BranchAndBoundCoinSelection::default()
                    .coin_select(params(vec![], optional, fee_rate, target_amount), &mut test_rng())
            }
            CoinSelectionAlgo::OldestFirst => OldestFirstCoinSelection
                .coin_select(params(vec![], optional, fee_rate, target_amount), &mut test_rng()),
            CoinSelectionAlgo::LargestFirst => LargestFirstCoinSelection
                .coin_select(params(vec![], optional, fee_rate, target_amount), &mut test_rng()),
        };

        assert!(result.is_ok(), "coin_select failed {}", tc.name);
        let result = result.unwrap();
        assert!(matches!(result.excess, Excess::NoChange { .. }));
        assert_eq!(result.selected.len(), 3, "wrong selected len for {}", tc.name);
        assert_eq!(
            result.selected_amount(),
            300_000,
            "wrong selected amount for {}",
            tc.name
        );
        assert_eq!(result.fee_amount, 204, "wrong fee amount for {}", tc.name);
        let vouts = result
            .selected
            .iter()
            .map(|utxo| utxo.outpoint().vout)
            .collect::<Vec<u32>>();
        assert_eq!(vouts, tc.exp_vouts, "wrong selected vouts for {}", tc.name);
    }
}

#[test]
fn test_coin_selection_grouping_address_behavior() {
    // Four outputs, two per address; a zero fee rate removes fee effects.
    let fee_rate = 0;
    // Set target low enough so that a single UTXO would suffice.
    let target = 200_000_000;
    let utxos = generate_utxos_with_same_address();

    // --- Case 1: Without avoid_partial_spends (grouping disabled)
    let mut rng = test_rng();
    let res_no_group = LargestFirstCoinSelection
        .coin_select(
            CoinSelectionParams {
                required_utxos: vec![],
                optional_utxos: utxos.clone(),
                fee_rate,
                target_amount: target,
                drain_script: Vec::new(),
                avoid_partial_spends: false,
            },
            &mut rng,
        )
        .expect("coin selection should succeed without grouping");
    assert_eq!(res_no_group.selected.len(), 1, "expected 1 UTXO selected when not grouping");
    let selected_no_group = res_no_group.selected_amount();
    assert_eq!(
        selected_no_group, 1_000_000_000,
        "expected non-grouped selection to pick the largest output"
    );

    // --- Case 2: With avoid_partial_spends enabled (grouping enabled)
    let res_group = LargestFirstCoinSelection
        .coin_select(
            CoinSelectionParams {
                required_utxos: vec![],
                optional_utxos: utxos,
                fee_rate,
                target_amount: target,
                drain_script: Vec::new(),
                avoid_partial_spends: true,
            },
            &mut rng,
        )
        .expect("coin selection should succeed with grouping");
    assert_eq!(
        res_group.selected.len(),
        2,
        "expected 2 UTXOs selected when grouping is enabled"
    );
    let selected_group = res_group.selected_amount();
    assert!(selected_group > selected_no_group, "expected grouped selection amount to be larger");
    let common_script = res_group.selected[0].txout().script_pubkey.clone();
    for utxo in res_group.selected.iter() {
        assert_eq!(
            utxo.txout().script_pubkey,
            common_script,
            "all UTXOs in a grouped selection must belong to the same address"
        );
    }
}

#[test]
fn test_coin_selection_grouping_address_behavior_oldestfirst() {
    let fee_rate = 0;
    let target = 200_000_000;
    let utxos = generate_utxos_with_same_address();

    // Case 1: Grouping disabled.
    let mut rng = test_rng();
    let res_no_group = OldestFirstCoinSelection
        .coin_select(
            CoinSelectionParams {
                required_utxos: vec![],
                optional_utxos: utxos.clone(),
                fee_rate,
                target_amount: target,
                drain_script: Vec::new(),
                avoid_partial_spends: false,
            },
            &mut rng,
        )
        .expect("coin selection should succeed without grouping (OldestFirst)");
    assert_eq!(
        res_no_group.selected.len(),
        1,
        "expected 1 UTXO selected when not grouping (OldestFirst)"
    );
    assert_eq!(
        res_no_group.selected_amount(),
        1_000_000_000,
        "expected non-grouped selection to pick the first equally old output (OldestFirst)"
    );

    // Case 2: Grouping enabled.
    let res_group = OldestFirstCoinSelection
        .coin_select(
            CoinSelectionParams {
                required_utxos: vec![],
                optional_utxos: utxos,
                fee_rate,
                target_amount: target,
                drain_script: Vec::new(),
                avoid_partial_spends: true,
            },
            &mut rng,
        )
        .expect("coin selection should succeed with grouping (OldestFirst)");
    assert_eq!(
        res_group.selected.len(),
        2,
        "expected 2 UTXOs selected when grouping is enabled (OldestFirst)"
    );
    assert_eq!(
        res_group.selected_amount(),
        1_500_000_000,
        "expected grouped selection to pick outputs of one address (OldestFirst)"
    );
    let common_script = res_group.selected[0].txout().script_pubkey.clone();
    for utxo in res_group.selected.iter() {
        assert_eq!(
            utxo.txout().script_pubkey,
            common_script,
            "all UTXOs in grouped selection must belong to the same address (OldestFirst)"
        );
    }
}

#[test]
fn test_coin_selection_grouping_address_behavior_branch_and_bound() {
    let fee_rate = 0;
    let target = 200_000_000;
    let utxos = generate_utxos_with_same_address();

    let mut rng = test_rng();
    let bnb_algo = coin_select::bnb::BranchAndBoundCoinSelection::default();

    // --- Case 1: Without avoid_partial_spends (grouping disabled)
    let res_no_group = bnb_algo
        .coin_select(
            CoinSelectionParams {
                required_utxos: vec![],
                optional_utxos: utxos.clone(),
                fee_rate,
                target_amount: target,
                drain_script: Vec::new(),
                avoid_partial_spends: false,
            },
            &mut rng,
        )
        .expect("coin selection should succeed without grouping (BnB)");
    assert_eq!(res_no_group.selected.len(), 1, "expected 1 UTXO selected when not grouping (BnB)");
    let non_group_val = res_no_group.selected_amount();
    assert!(
        non_group_val == 1_000_000_000 || non_group_val == 500_000_000,
        "expected one output of either size, got {}",
        non_group_val
    );

    // --- Case 2: With avoid_partial_spends enabled (grouping enabled)
    let res_group = bnb_algo
        .coin_select(
            CoinSelectionParams {
                required_utxos: vec![],
                optional_utxos: utxos,
                fee_rate,
                target_amount: target,
                drain_script: Vec::new(),
                avoid_partial_spends: true,
            },
            &mut rng,
        )
        .expect("coin selection should succeed with grouping (BnB)");
    assert_eq!(
        res_group.selected.len(),
        2,
        "expected 2 UTXOs selected when grouping is enabled (BnB)"
    );
    assert_eq!(
        res_group.selected_amount(),
        1_500_000_000,
        "expected grouped selection to pick outputs of one address (BnB)"
    );
    let common_script = res_group.selected[0].txout().script_pubkey.clone();
    for utxo in res_group.selected.iter() {
        assert_eq!(
            utxo.txout().script_pubkey,
            common_script,
            "all UTXOs in grouped selection must belong to the same address (BnB)"
        );
    }
}

#[test]
fn test_coin_selection_grouping_address_behavior_single_random_draw() {
    let fee_rate = 0;
    let target = 200_000_000;
    let utxos = generate_utxos_with_same_address();
    let mut rng = test_rng();

    // --- Case 1: Without avoid_partial_spends (grouping disabled)
    let res_no_group = SingleRandomDraw
        .coin_select(
            CoinSelectionParams {
                required_utxos: vec![],
                optional_utxos: utxos.clone(),
                fee_rate,
                target_amount: target,
                drain_script: Vec::new(),
                avoid_partial_spends: false,
            },
            &mut rng,
        )
        .expect("coin selection should succeed without grouping (RandomDraw)");
    assert_eq!(
        res_no_group.selected.len(),
        1,
        "expected 1 UTXO selected when not grouping (RandomDraw)"
    );
    let sel_amt = res_no_group.selected_amount();
    assert!(
        sel_amt == 1_000_000_000 || sel_amt == 500_000_000,
        "expected one output of either size, got {}",
        sel_amt
    );

    // --- Case 2: With avoid_partial_spends enabled (grouping enabled)
    let res_group = SingleRandomDraw
        .coin_select(
            CoinSelectionParams {
                required_utxos: vec![],
                optional_utxos: utxos,
                fee_rate,
                target_amount: target,
                drain_script: Vec::new(),
                avoid_partial_spends: true,
            },
            &mut rng,
        )
        .expect("coin selection should succeed with grouping (RandomDraw)");
    assert_eq!(
        res_group.selected.len(),
        2,
        "expected 2 UTXOs selected when grouping is enabled (RandomDraw)"
    );
    assert_eq!(
        res_group.selected_amount(),
        1_500_000_000,
        "expected grouped selection to pick outputs of one address (RandomDraw)"
    );
    let common_script = res_group.selected[0].txout().script_pubkey.clone();
    for utxo in res_group.selected.iter() {
        assert_eq!(
            utxo.txout().script_pubkey,
            common_script,
            "all UTXOs in grouped selection must belong to the same address (RandomDraw)"
        );
    }
}

#[test]
fn oldest_first_ranks_confirmed_before_unconfirmed_before_foreign() {
    let confirmed = confirmed_utxo(100_000, 0, 5, 1231006505);
    let unconfirmed = unconfirmed_utxo(200_000, 1, 77);
    let foreign = WeightedUtxo {
        satisfaction_weight: P2WPKH_SATISFACTION_SIZE,
        utxo: Utxo::Foreign {
            outpoint: OutPoint::new(txid_bytes(2), 0),
            txout: TxOut { value: 300_000, script_pubkey: Vec::new() },
        },
    };
    let optional = vec![foreign, unconfirmed, confirmed];
    let result = OldestFirstCoinSelection
        .coin_select(params(vec![], optional, rate_per_vb(1), 250_000), &mut test_rng())
        .unwrap();
    // the confirmed output is drawn first, the unconfirmed one second, and
    // the foreign output is never needed
    let vouts: Vec<u32> = result.selected.iter().map(|u| u.outpoint().vout).collect();
    assert_eq!(result.selected.len(), 2);
    assert_eq!(result.selected[0].outpoint().txid[31], 0);
    assert_eq!(result.selected[1].outpoint().txid[31], 1);
    assert_eq!(vouts, vec![0, 0]);
    assert_eq!(result.selected_amount(), 300_000);
}
