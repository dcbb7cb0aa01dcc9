//! The data model: outpoints, transaction outputs, chain positions, UTXOs,
//! and the request/response shapes of a coin selection.

use vstd::prelude::*;

verus! {

/// Identity of an unspent transaction output: transaction id plus output index.
#[derive(Clone, Copy, Debug)]
pub struct OutPoint {
    /// Transaction id, as 32 raw bytes.
    pub txid: [u8; 32],
    /// Index of the output within its transaction.
    pub vout: u32,
}

impl OutPoint {
    /// Build an outpoint from a txid and an output index.
    pub fn new(txid: [u8; 32], vout: u32) -> (r: OutPoint)
        ensures
            r.txid == txid,
            r.vout == vout,
    {
        OutPoint { txid, vout }
    }
}

/// Whether two outpoints name the same output.
pub open spec fn same_outpoint(a: OutPoint, b: OutPoint) -> bool {
    a.txid@ == b.txid@ && a.vout == b.vout
}

/// Compare two outpoints for equality.
pub fn outpoint_eq(a: &OutPoint, b: &OutPoint) -> (r: bool)
    ensures
        r == same_outpoint(*a, *b),
{
    if a.vout != b.vout {
        return false;
    }
    let mut i: usize = 0;
    while i < 32
        invariant
            0 <= i <= 32,
            a.vout == b.vout,
            forall|j: int| 0 <= j < i ==> a.txid@[j] == b.txid@[j],
        decreases 32 - i,
    {
        if a.txid[i] != b.txid[i] {
            return false;
        }
        i = i + 1;
    }
    proof {
        assert(a.txid@ =~= b.txid@);
    }
    true
}

/// A transaction output: a value in satoshis locked under a script.
#[derive(Clone, Debug)]
pub struct TxOut {
    /// Value in satoshis.
    pub value: u64,
    /// The script that must be satisfied to spend this output.
    pub script_pubkey: Vec<u8>,
}

/// Mathematical value of a [`TxOut`].
pub struct TxOutV {
    pub value: u64,
    pub script_pubkey: Seq<u8>,
}

impl View for TxOut {
    type V = TxOutV;

    open spec fn view(&self) -> TxOutV {
        TxOutV { value: self.value, script_pubkey: self.script_pubkey@ }
    }
}

impl TxOut {
    /// Copy this output.
    pub fn copied(&self) -> (r: TxOut)
        ensures
            r@ == self@,
    {
        let mut script: Vec<u8> = Vec::new();
        let mut i: usize = 0;
        while i < self.script_pubkey.len()
            invariant
                0 <= i <= self.script_pubkey.len(),
                script@ == self.script_pubkey@.take(i as int),
            decreases self.script_pubkey.len() - i,
        {
            script.push(self.script_pubkey[i]);
            i = i + 1;
        }
        proof {
            assert(script@ =~= self.script_pubkey@);
        }
        TxOut { value: self.value, script_pubkey: script }
    }
}

/// Which keychain of the wallet an output belongs to.
#[derive(Clone, Copy, Debug, PartialEq, Eq, Structural)]
pub enum KeychainKind {
    /// Externally revealed addresses.
    External,
    /// Internal (change) addresses.
    Internal,
}

/// Position of a transaction in the chain, used to order outputs by age.
#[derive(Clone, Copy, Debug)]
pub enum ChainPosition {
    /// The transaction is confirmed at the given block height.
    Confirmed {
        /// Height of the confirming block.
        height: u32,
        /// Timestamp of the confirming block.
        confirmation_time: u64,
    },
    /// The transaction is not confirmed; it was last seen in the mempool
    /// at the given time, if at all.
    Unconfirmed {
        /// Last time the transaction was seen, if known.
        last_seen: Option<u64>,
    },
}

/// An output owned by the wallet.
#[derive(Clone, Debug)]
pub struct LocalOutput {
    /// Identity of the output.
    pub outpoint: OutPoint,
    /// The output itself.
    pub txout: TxOut,
    /// Keychain the output belongs to.
    pub keychain: KeychainKind,
    /// Whether a spend of this output has already been seen.
    pub is_spent: bool,
    /// Derivation index of the script of this output.
    pub derivation_index: u32,
    /// Chain position of the transaction holding this output.
    pub chain_position: ChainPosition,
}

/// Mathematical value of a [`LocalOutput`].
pub struct LocalOutputV {
    pub outpoint: OutPoint,
    pub txout: TxOutV,
    pub keychain: KeychainKind,
    pub is_spent: bool,
    pub derivation_index: u32,
    pub chain_position: ChainPosition,
}

impl View for LocalOutput {
    type V = LocalOutputV;

    open spec fn view(&self) -> LocalOutputV {
        LocalOutputV {
            outpoint: self.outpoint,
            txout: self.txout@,
            keychain: self.keychain,
            is_spent: self.is_spent,
            derivation_index: self.derivation_index,
            chain_position: self.chain_position,
        }
    }
}

/// A spendable output: either owned by the wallet, or a foreign output the
/// caller has classified and can satisfy.
#[derive(Clone, Debug)]
pub enum Utxo {
    /// An output of the wallet itself.
    Local(LocalOutput),
    /// An output contributed from outside the wallet.
    Foreign {
        /// Identity of the output.
        outpoint: OutPoint,
        /// The output itself.
        txout: TxOut,
    },
}

/// Mathematical value of a [`Utxo`].
pub enum UtxoV {
    Local(LocalOutputV),
    Foreign { outpoint: OutPoint, txout: TxOutV },
}

impl View for Utxo {
    type V = UtxoV;

    open spec fn view(&self) -> UtxoV {
        match self {
            Utxo::Local(local) => UtxoV::Local(local@),
            Utxo::Foreign { outpoint, txout } => UtxoV::Foreign {
                outpoint: *outpoint,
                txout: txout@,
            },
        }
    }
}

impl UtxoV {
    /// The output held by this UTXO.
    pub open spec fn txout(self) -> TxOutV {
        match self {
            UtxoV::Local(local) => local.txout,
            UtxoV::Foreign { txout, .. } => txout,
        }
    }

    /// Value of this UTXO in satoshis.
    pub open spec fn value(self) -> u64 {
        self.txout().value
    }

    /// Identity of this UTXO.
    pub open spec fn outpoint(self) -> OutPoint {
        match self {
            UtxoV::Local(local) => local.outpoint,
            UtxoV::Foreign { outpoint, .. } => outpoint,
        }
    }
}

impl Utxo {
    /// The output held by this UTXO.
    pub fn txout(&self) -> (r: &TxOut)
        ensures
            r@ == self@.txout(),
    {
        match self {
            Utxo::Local(local) => &local.txout,
            Utxo::Foreign { txout, .. } => txout,
        }
    }

    /// Identity of this UTXO.
    pub fn outpoint(&self) -> (r: OutPoint)
        ensures
            r == self@.outpoint(),
    {
        match self {
            Utxo::Local(local) => local.outpoint,
            Utxo::Foreign { outpoint, .. } => *outpoint,
        }
    }

    /// Copy this UTXO.
    pub fn copied(&self) -> (r: Utxo)
        ensures
            r@ == self@,
    {
        match self {
            Utxo::Local(local) => Utxo::Local(LocalOutput {
                outpoint: local.outpoint,
                txout: local.txout.copied(),
                keychain: local.keychain,
                is_spent: local.is_spent,
                derivation_index: local.derivation_index,
                chain_position: local.chain_position,
            }),
            Utxo::Foreign { outpoint, txout } => Utxo::Foreign {
                outpoint: *outpoint,
                txout: txout.copied(),
            },
        }
    }
}

/// A UTXO together with the weight the caller expects its satisfaction
/// (witness and script-sig) to add to the transaction.
#[derive(Clone, Debug)]
pub struct WeightedUtxo {
    /// The spendable output.
    pub utxo: Utxo,
    /// Satisfaction weight of the output, in weight units.
    pub satisfaction_weight: u64,
}

/// Mathematical value of a [`WeightedUtxo`].
pub struct WeightedUtxoV {
    pub utxo: UtxoV,
    pub satisfaction_weight: u64,
}

impl View for WeightedUtxo {
    type V = WeightedUtxoV;

    open spec fn view(&self) -> WeightedUtxoV {
        WeightedUtxoV { utxo: self.utxo@, satisfaction_weight: self.satisfaction_weight }
    }
}

impl WeightedUtxoV {
    /// Value of the underlying UTXO in satoshis.
    pub open spec fn value(self) -> u64 {
        self.utxo.value()
    }

    /// Identity of the underlying UTXO.
    pub open spec fn outpoint(self) -> OutPoint {
        self.utxo.outpoint()
    }

    /// Script of the underlying UTXO.
    pub open spec fn script(self) -> Seq<u8> {
        self.utxo.txout().script_pubkey
    }
}

impl WeightedUtxo {
    /// Copy this weighted UTXO.
    pub fn copied(&self) -> (r: WeightedUtxo)
        ensures
            r@ == self@,
    {
        WeightedUtxo { utxo: self.utxo.copied(), satisfaction_weight: self.satisfaction_weight }
    }
}

/// Copy a byte string.
pub fn copy_bytes(v: &Vec<u8>) -> (r: Vec<u8>)
    ensures
        r@ == v@,
{
    let mut r: Vec<u8> = Vec::new();
    let mut i: usize = 0;
    while i < v.len()
        invariant
            0 <= i <= v.len(),
            r@ == v@.take(i as int),
        decreases v.len() - i,
    {
        r.push(v[i]);
        proof {
            assert(r@ =~= v@.take(i + 1));
        }
        i = i + 1;
    }
    proof {
        assert(v@.take(v@.len() as int) =~= v@);
    }
    r
}

/// Compare two byte strings for equality.
pub fn bytes_eq(a: &Vec<u8>, b: &Vec<u8>) -> (r: bool)
    ensures
        r <==> a@ == b@,
{
    if a.len() != b.len() {
        proof {
            assert(a@.len() != b@.len());
        }
        return false;
    }
    let mut i: usize = 0;
    while i < a.len()
        invariant
            0 <= i <= a.len(),
            a@.len() == b@.len(),
            forall|j: int| 0 <= j < i ==> a@[j] == b@[j],
        decreases a.len() - i,
    {
        if a[i] != b[i] {
            return false;
        }
        i = i + 1;
    }
    proof {
        assert(a@ =~= b@);
    }
    true
}

/// The views of a sequence of weighted UTXOs.
pub open spec fn wu_views(s: Seq<WeightedUtxo>) -> Seq<WeightedUtxoV> {
    s.map_values(|w: WeightedUtxo| w@)
}

/// The views of a sequence of UTXOs.
pub open spec fn utxo_views(s: Seq<Utxo>) -> Seq<UtxoV> {
    s.map_values(|u: Utxo| u@)
}

/// Copy a vector of weighted UTXOs.
pub fn copy_weighted_utxos(v: &Vec<WeightedUtxo>) -> (r: Vec<WeightedUtxo>)
    ensures
        wu_views(r@) == wu_views(v@),
        r@.len() == v@.len(),
{
    let mut r: Vec<WeightedUtxo> = Vec::new();
    let mut i: usize = 0;
    while i < v.len()
        invariant
            0 <= i <= v.len(),
            r@.len() == i,
            forall|j: int| 0 <= j < i ==> #[trigger] r@[j]@ == v@[j]@,
        decreases v.len() - i,
    {
        r.push(v[i].copied());
        i = i + 1;
    }
    proof {
        assert(wu_views(r@) =~= wu_views(v@));
    }
    r
}

} // verus!
