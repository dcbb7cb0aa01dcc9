//! Grouping, deduplication, and the change decision.

use coin_select::change::decide_change;
use coin_select::change::Excess;
use coin_select::dedup::filter_duplicates;
use coin_select::grouping::group_utxos_if_applies;
use coin_select::policies::LargestFirstCoinSelection;
use coin_select::selection::CoinSelectionAlgorithm;
use coin_select::selection::CoinSelectionParams;
use coin_select::selection::UniformRandom;
use coin_select::types::outpoint_eq;
use coin_select::types::ChainPosition;
use coin_select::types::KeychainKind;
use coin_select::types::LocalOutput;
use coin_select::types::OutPoint;
use coin_select::types::TxOut;
use coin_select::types::Utxo;
use coin_select::types::WeightedUtxo;

const P2WPKH_SATISFACTION_SIZE: u64 = 1 + 72 + 1 + 33;

struct NoRand;

impl UniformRandom for NoRand {
    fn next_index(&mut self, bound: usize) -> usize {
        bound - 1
    }
}

fn shared_script_utxo(value: u64, vout: u32, script: Vec<u8>) -> WeightedUtxo {
    WeightedUtxo {
        satisfaction_weight: P2WPKH_SATISFACTION_SIZE,
        utxo: Utxo::Local(LocalOutput {
            outpoint: OutPoint::new([0xeb; 32], vout),
            txout: TxOut { value, script_pubkey: script },
            keychain: KeychainKind::External,
            is_spent: false,
            derivation_index: 42,
            chain_position: ChainPosition::Unconfirmed { last_seen: Some(0) },
        }),
    }
}

fn generate_utxos_with_same_address() -> Vec<WeightedUtxo> {
    vec![
        shared_script_utxo(1_000_000_000, 0, vec![b'A']),
        shared_script_utxo(500_000_000, 1, vec![b'A']),
        shared_script_utxo(1_000_000_000, 2, vec![b'B']),
        shared_script_utxo(500_000_000, 3, vec![b'B']),
    ]
}

#[test]
fn test_group_utxos_if_applies_grouping() {
    // generate 4 utxos:
    // - Two for script A
    // - Two for script B
    let utxos = generate_utxos_with_same_address();

    // Grouping should combine utxos with the same script when avoiding
    // partial spends.
    let groups = group_utxos_if_applies(utxos, true);

    // Since we have two distinct scripts we expect 2 groups.
    assert_eq!(groups.len(), 2, "Expected 2 groups for 2 distinct addresses");

    // Each group must have exactly two UTXOs.
    for group in groups {
        assert_eq!(group.len(), 2, "Each group should contain exactly 2 UTXOs");
        // Check that all UTXOs in the group share the same script_pubkey.
        let script = group[0].utxo.txout().script_pubkey.clone();
        for utxo in group.iter() {
            assert_eq!(utxo.utxo.txout().script_pubkey, script);
        }
    }
}

#[test]
fn test_group_utxos_if_applies_max_entries() {
    // Create 101 UTXOs with the same script (address A)
    let mut utxos = Vec::new();
    for i in 0..101 {
        utxos.push(shared_script_utxo(1_000_000_000, i, vec![b'A']));
    }

    // Group UTXOs with avoid_partial_spends enabled.
    let groups = group_utxos_if_applies(utxos, true);

    // Since all UTXOs share the same script and a group holds at most 100
    // entries, they must be split into 2 groups: one with 100 utxos and one
    // with 1.
    assert_eq!(groups.len(), 2, "Expected 2 groups after splitting 101 UTXOs");
    let sizes: Vec<usize> = groups.iter().map(|g| g.len()).collect();
    assert!(sizes.contains(&100), "One group should contain exactly 100 UTXOs");
    assert!(sizes.contains(&1), "One group should contain exactly 1 UTXO");
}

fn named_utxo(txid: &str, value: u64) -> WeightedUtxo {
    let digest =
        <bitcoin::hashes::sha256d::Hash as bitcoin::hashes::Hash>::hash(txid.as_bytes());
    WeightedUtxo {
        satisfaction_weight: 0,
        utxo: Utxo::Local(LocalOutput {
            outpoint: OutPoint::new(
                <bitcoin::hashes::sha256d::Hash as bitcoin::hashes::Hash>::to_byte_array(digest),
                0,
            ),
            txout: TxOut { value, script_pubkey: Vec::new() },
            keychain: KeychainKind::External,
            is_spent: false,
            derivation_index: 0,
            chain_position: ChainPosition::Confirmed {
                height: 12345,
                confirmation_time: 12345,
            },
        }),
    }
}

fn to_utxo_vec(utxos: &[(&str, u64)]) -> Vec<WeightedUtxo> {
    let mut v = utxos
        .iter()
        .map(|&(txid, value)| named_utxo(txid, value))
        .collect::<Vec<_>>();
    v.sort_by_key(|u| {
        let op = u.utxo.outpoint();
        (op.txid, op.vout)
    });
    v
}

fn wu_eq(a: &WeightedUtxo, b: &WeightedUtxo) -> bool {
    a.satisfaction_weight == b.satisfaction_weight
        && outpoint_eq(&a.utxo.outpoint(), &b.utxo.outpoint())
        && a.utxo.txout().value == b.utxo.txout().value
        && a.utxo.txout().script_pubkey == b.utxo.txout().script_pubkey
}

fn wu_vec_eq(a: &[WeightedUtxo], b: &[WeightedUtxo]) -> bool {
    a.len() == b.len() && a.iter().zip(b.iter()).all(|(x, y)| wu_eq(x, y))
}

#[test]
fn test_filter_duplicates() {
    struct TestCase<'a> {
        name: &'a str,
        required: &'a [(&'a str, u64)],
        optional: &'a [(&'a str, u64)],
        exp_required: &'a [(&'a str, u64)],
        exp_optional: &'a [(&'a str, u64)],
    }

    let test_cases = [
        TestCase {
            name: "no_duplicates",
            required: &[("A", 1000), ("B", 2100)],
            optional: &[("C", 1000)],
            exp_required: &[("A", 1000), ("B", 2100)],
            exp_optional: &[("C", 1000)],
        },
        TestCase {
            name: "duplicate_required_utxos",
            required: &[("A", 3000), ("B", 1200), ("C", 1234), ("A", 3000)],
            optional: &[("D", 2100)],
            exp_required: &[("A", 3000), ("B", 1200), ("C", 1234)],
            exp_optional: &[("D", 2100)],
        },
        TestCase {
            name: "duplicate_optional_utxos",
            required: &[("A", 3000), ("B", 1200)],
            optional: &[("C", 5000), ("D", 1300), ("C", 5000)],
            exp_required: &[("A", 3000), ("B", 1200)],
            exp_optional: &[("C", 5000), ("D", 1300)],
        },
        TestCase {
            name: "duplicate_across_required_and_optional_utxos",
            required: &[("A", 3000), ("B", 1200), ("C", 2100)],
            optional: &[("A", 3000), ("D", 1200), ("E", 5000)],
            exp_required: &[("A", 3000), ("B", 1200), ("C", 2100)],
            exp_optional: &[("D", 1200), ("E", 5000)],
        },
    ];

    for (i, t) in test_cases.into_iter().enumerate() {
        let (required, optional) =
            filter_duplicates(to_utxo_vec(t.required), to_utxo_vec(t.optional));
        assert!(
            wu_vec_eq(&required, &to_utxo_vec(t.exp_required)),
            "[{}:{}] unexpected `required` result",
            i,
            t.name
        );
        assert!(
            wu_vec_eq(&optional, &to_utxo_vec(t.exp_optional)),
            "[{}:{}] unexpected `optional` result",
            i,
            t.name
        );
    }
}

#[test]
fn decide_change_dust_goes_to_fees() {
    // empty drain script: 1 serialized byte plus the 8 value bytes give a
    // 9-virtual-byte output, 9 satoshis at 1 sat/vB; the dust bound of an
    // empty script under the standard 3 sat/vB relay rate is 471 satoshis
    let excess = decide_change(200, 250, &Vec::new());
    assert_eq!(
        excess,
        Excess::NoChange { dust_threshold: 471, remaining_amount: 200, change_fee: 9 }
    );
}

#[test]
fn decide_change_creates_change() {
    let excess = decide_change(10_000, 250, &Vec::new());
    assert_eq!(excess, Excess::Change { amount: 9_991, fee: 9 });
    // the change amount and its fee give back the whole leftover
    match excess {
        Excess::Change { amount, fee } => assert_eq!(amount + fee, 10_000),
        Excess::NoChange { .. } => unreachable!(),
    }
}

#[test]
fn decide_change_counts_script_length() {
    // a 300-byte script takes a 3-byte length prefix when serialized, so
    // the drain output is 3 + 300 + 8 = 311 virtual bytes
    let script = vec![0u8; 300];
    let excess = decide_change(1_000_000, 250, &script);
    match excess {
        Excess::Change { amount, fee } => {
            assert_eq!(fee, 311);
            assert_eq!(amount, 1_000_000 - 311);
        }
        Excess::NoChange { .. } => unreachable!(),
    }
}

#[test]
fn outpoint_equality_compares_txid_and_vout() {
    let a = OutPoint::new([1; 32], 0);
    let b = OutPoint::new([1; 32], 0);
    let c = OutPoint::new([1; 32], 1);
    let mut d_bytes = [1; 32];
    d_bytes[0] = 2;
    let d = OutPoint::new(d_bytes, 0);
    assert!(outpoint_eq(&a, &b));
    assert!(!outpoint_eq(&a, &c));
    assert!(!outpoint_eq(&a, &d));
}

#[test]
fn grouping_disabled_keeps_order_of_singletons() {
    let utxos = generate_utxos_with_same_address();
    let groups = group_utxos_if_applies(utxos.clone(), false);
    assert_eq!(groups.len(), 4);
    for (g, u) in groups.iter().zip(utxos.iter()) {
        assert_eq!(g.len(), 1);
        assert!(wu_eq(&g[0], u));
    }
}

#[test]
fn local_and_foreign_amounts_are_tracked() {
    let local = shared_script_utxo(100_000, 0, Vec::new());
    let foreign = WeightedUtxo {
        satisfaction_weight: P2WPKH_SATISFACTION_SIZE,
        utxo: Utxo::Foreign {
            outpoint: OutPoint::new([9; 32], 7),
            txout: TxOut { value: 500_000, script_pubkey: Vec::new() },
        },
    };
    let result = LargestFirstCoinSelection
        .coin_select(
            CoinSelectionParams {
                required_utxos: vec![local, foreign],
                optional_utxos: vec![],
                fee_rate: 250,
                target_amount: 1_000,
                drain_script: Vec::new(),
                avoid_partial_spends: false,
            },
            &mut NoRand,
        )
        .unwrap();
    assert_eq!(result.selected_amount(), 600_000);
    assert_eq!(result.local_selected_amount(), 100_000);
    assert_eq!(result.fee_amount, 136);
}

#[test]
fn fee_grows_with_fee_rate() {
    // ten satoshis per virtual byte charge 680 satoshis for one
    // pay-to-witness-public-key-hash input
    let utxos = vec![shared_script_utxo(100_000, 0, Vec::new())];
    let result = LargestFirstCoinSelection
        .coin_select(
            CoinSelectionParams {
                required_utxos: vec![],
                optional_utxos: utxos,
                fee_rate: 2_500,
                target_amount: 1_000,
                drain_script: Vec::new(),
                avoid_partial_spends: false,
            },
            &mut NoRand,
        )
        .unwrap();
    assert_eq!(result.fee_amount, 680);
}

#[test]
fn required_utxos_are_always_included() {
    // a required dust output is spent even though it costs more than it
    // holds
    let dust = shared_script_utxo(10, 0, Vec::new());
    let big = shared_script_utxo(100_000, 1, Vec::new());
    let result = LargestFirstCoinSelection
        .coin_select(
            CoinSelectionParams {
                required_utxos: vec![dust],
                optional_utxos: vec![big],
                fee_rate: 250,
                target_amount: 50_000,
                drain_script: Vec::new(),
                avoid_partial_spends: false,
            },
            &mut NoRand,
        )
        .unwrap();
    let vouts: Vec<u32> = result.selected.iter().map(|u| u.outpoint().vout).collect();
    assert!(vouts.contains(&0));
    assert!(vouts.contains(&1));
    assert_eq!(result.fee_amount, 136);
    assert_eq!(result.selected_amount(), 100_010);
}
