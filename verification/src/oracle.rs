//! The oracle handler: bonded attestors, meter bindings and validated
//! meter readings, with disputes that slash or reward the attestors.
use vstd::prelude::*;
use crate::ids::{Address, Bytes32, bytes32_eq};
use crate::bytes::{copy_bytes, push_be_u64, be_u64};
use crate::crypto::{sha256, sha256_digest};
use crate::rec_token::FuelType;
use soroban_sdk::Env;

verus! {

/// Errors of the oracle handler.
#[derive(Clone, Copy, Debug, PartialEq, Eq, Structural)]
pub enum OracleError {
    Unauthorized,
    OracleAlreadyRegistered,
    OracleNotFound,
    ThresholdNotMet,
    InvalidSignature,
    InvalidMeterReading,
    MeterNotBound,
    AlreadyResolved,
    DisputeWindowExpired,
    ContractPaused,
    BondTooLow,
    InsufficientBond,
    NoRewardsToClaim,
    RewardPoolInsufficient,
}

impl OracleError {
    /// The error's number on the ledger.
    pub open spec fn number(self) -> u32 {
        match self {
            OracleError::Unauthorized => 1,
            OracleError::OracleAlreadyRegistered => 2,
            OracleError::OracleNotFound => 3,
            OracleError::ThresholdNotMet => 4,
            OracleError::InvalidSignature => 5,
            OracleError::InvalidMeterReading => 6,
            OracleError::MeterNotBound => 7,
            OracleError::AlreadyResolved => 8,
            OracleError::DisputeWindowExpired => 9,
            OracleError::ContractPaused => 10,
            OracleError::BondTooLow => 11,
            OracleError::InsufficientBond => 12,
            OracleError::NoRewardsToClaim => 13,
            OracleError::RewardPoolInsufficient => 14,
        }
    }

    /// The error's number on the ledger.
    pub fn code(&self) -> (r: u32)
        ensures
            r == self.number(),
    {
        match self {
            OracleError::Unauthorized => 1,
            OracleError::OracleAlreadyRegistered => 2,
            OracleError::OracleNotFound => 3,
            OracleError::ThresholdNotMet => 4,
            OracleError::InvalidSignature => 5,
            OracleError::InvalidMeterReading => 6,
            OracleError::MeterNotBound => 7,
            OracleError::AlreadyResolved => 8,
            OracleError::DisputeWindowExpired => 9,
            OracleError::ContractPaused => 10,
            OracleError::BondTooLow => 11,
            OracleError::InsufficientBond => 12,
            OracleError::NoRewardsToClaim => 13,
            OracleError::RewardPoolInsufficient => 14,
        }
    }
}

/// A registered attestor.
#[derive(Clone, Debug, PartialEq, Eq)]
pub struct OracleNode {
    pub pubkey: Bytes32,
    pub uri: Vec<u8>,
    pub operator: Address,
    pub active: bool,
    pub registered_at: u64,
    pub stake: i128,
    pub rewards: i128,
    pub reputation: u32,
}

impl OracleNode {
    /// Field-by-field equality, byte strings compared by content.
    pub open spec fn same_content(self, other: OracleNode) -> bool {
        &&& self.pubkey == other.pubkey
        &&& self.uri@ == other.uri@
        &&& self.operator == other.operator
        &&& self.active == other.active
        &&& self.registered_at == other.registered_at
        &&& self.stake == other.stake
        &&& self.rewards == other.rewards
        &&& self.reputation == other.reputation
    }

    /// A copy of the node.
    pub fn duplicate(&self) -> (r: OracleNode)
        ensures
            r.same_content(*self),
    {
        OracleNode {
            pubkey: self.pubkey,
            uri: copy_bytes(&self.uri),
            operator: self.operator,
            active: self.active,
            registered_at: self.registered_at,
            stake: self.stake,
            rewards: self.rewards,
            reputation: self.reputation,
        }
    }
}

/// The binding of a meter to a generation asset and the account that
/// receives its certificates.
#[derive(Clone, Copy, Debug, PartialEq, Eq)]
pub struct MeterBinding {
    pub meter_id: Bytes32,
    pub asset_id: Bytes32,
    pub receiver: Address,
    pub capacity_mw: u64,
}

/// A validated meter reading.
#[derive(Clone, Debug, PartialEq, Eq)]
pub struct ReadingRecord {
    pub reading_hash: Bytes32,
    pub meter_id: Bytes32,
    pub mwh: u64,
    pub timestamp: u64,
    pub oracle_count: u32,
    pub threshold_met: bool,
    pub disputed: bool,
    pub resolved: bool,
    pub token_id: Option<u64>,
    pub oracles: Vec<Bytes32>,
}

impl ReadingRecord {
    /// Field-by-field equality, lists compared by content.
    pub open spec fn same_content(self, other: ReadingRecord) -> bool {
        &&& self.reading_hash == other.reading_hash
        &&& self.meter_id == other.meter_id
        &&& self.mwh == other.mwh
        &&& self.timestamp == other.timestamp
        &&& self.oracle_count == other.oracle_count
        &&& self.threshold_met == other.threshold_met
        &&& self.disputed == other.disputed
        &&& self.resolved == other.resolved
        &&& self.token_id == other.token_id
        &&& self.oracles@ == other.oracles@
    }

    /// A copy of the record.
    pub fn duplicate(&self) -> (r: ReadingRecord)
        ensures
            r.same_content(*self),
    {
        let mut oracles: Vec<Bytes32> = Vec::new();
        let mut i: usize = 0;
        while i < self.oracles.len()
            invariant
                0 <= i <= self.oracles@.len(),
                oracles@ == self.oracles@.take(i as int),
            decreases self.oracles@.len() - i,
        {
            oracles.push(self.oracles[i]);
            i = i + 1;
            proof {
                assert(oracles@ =~= self.oracles@.take(i as int));
            }
        }
        proof {
            assert(self.oracles@.take(self.oracles@.len() as int) =~= self.oracles@);
        }
        ReadingRecord {
            reading_hash: self.reading_hash,
            meter_id: self.meter_id,
            mwh: self.mwh,
            timestamp: self.timestamp,
            oracle_count: self.oracle_count,
            threshold_met: self.threshold_met,
            disputed: self.disputed,
            resolved: self.resolved,
            token_id: self.token_id,
            oracles,
        }
    }
}

/// Minimum bond of a new handler.
pub const DEFAULT_MINIMUM_BOND: i128 = 100_000_000_000;

/// Reward per reading of a new handler.
pub const DEFAULT_REWARD_PER_READING: i128 = 1_000_000;

/// The fuel type that a numeric code stands for: 0 solar, 1 wind,
/// 2 hydro, anything else other.
pub open spec fn fuel_of(code: u32) -> FuelType {
    if code == 0 {
        FuelType::Solar
    } else if code == 1 {
        FuelType::Wind
    } else if code == 2 {
        FuelType::Hydro
    } else {
        FuelType::Other
    }
}

/// The fuel type that a numeric code stands for.
pub fn fuel_from_code(code: u32) -> (r: FuelType)
    ensures
        r == fuel_of(code),
{
    match code {
        0 => FuelType::Solar,
        1 => FuelType::Wind,
        2 => FuelType::Hydro,
        _ => FuelType::Other,
    }
}

/// The bytes attestors sign for a reading: meter id, energy and time,
/// the numbers as eight big-endian bytes each.
pub open spec fn reading_message_of(meter_id: Bytes32, mwh: u64, generation_timestamp: u64) -> Seq<u8> {
    meter_id@ + be_u64(mwh) + be_u64(generation_timestamp)
}

/// The bytes attestors sign for a reading.
pub fn reading_message(meter_id: &Bytes32, mwh: u64, generation_timestamp: u64) -> (r: Vec<u8>)
    ensures
        r@ == reading_message_of(*meter_id, mwh, generation_timestamp),
{
    let mut data: Vec<u8> = Vec::new();
    let mut i: usize = 0;
    while i < 32
        invariant
            0 <= i <= 32,
            data@ == meter_id@.subrange(0, i as int),
        decreases 32 - i,
    {
        data.push(meter_id[i]);
        i = i + 1;
        proof {
            assert(data@ =~= meter_id@.subrange(0, i as int));
        }
    }
    proof {
        assert(meter_id@.subrange(0, 32) =~= meter_id@);
    }
    push_be_u64(&mut data, mwh);
    push_be_u64(&mut data, generation_timestamp);
    data
}

/// The id of a reading: the SHA-256 digest of its signed bytes.
pub fn reading_hash(env: &Env, meter_id: &Bytes32, mwh: u64, generation_timestamp: u64) -> (r: Bytes32)
    ensures
        r@ == sha256_digest(reading_message_of(*meter_id, mwh, generation_timestamp)),
{
    let data = reading_message(meter_id, mwh, generation_timestamp);
    sha256(env, &data)
}

/// Whether `pk` is registered in `s`.
pub open spec fn registered(s: Seq<OracleNode>, pk: Bytes32) -> bool {
    exists|i: int| 0 <= i < s.len() && (#[trigger] s[i]).pubkey == pk
}

/// Position of `pk` in `s`.
pub open spec fn node_at(s: Seq<OracleNode>, pk: Bytes32) -> int {
    choose|i: int| 0 <= i < s.len() && (#[trigger] s[i]).pubkey == pk
}

/// Public keys occur at most once in `s`.
pub open spec fn nodes_unique(s: Seq<OracleNode>) -> bool {
    forall|i: int, j: int| 0 <= i < j < s.len() ==> (#[trigger] s[i]).pubkey != (#[trigger] s[j]).pubkey
}

/// Node `n` after one more reading rewarded with `per`.
pub open spec fn credited(n: OracleNode, per: i128) -> OracleNode {
    OracleNode {
        rewards: (n.rewards + per) as i128,
        reputation: n.reputation.saturating_add(1),
        ..n
    }
}

/// The nodes after each signer in `signers`, in turn, is credited.
pub open spec fn credit(s: Seq<OracleNode>, signers: Seq<Bytes32>, per: i128) -> Seq<OracleNode>
    decreases signers.len(),
{
    if signers.len() == 0 {
        s
    } else {
        let prev = credit(s, signers.drop_last(), per);
        prev.update(node_at(prev, signers.last()), credited(prev[node_at(prev, signers.last())], per))
    }
}

/// Every credit along `signers` stays within machine integers.
pub open spec fn credit_fits(s: Seq<OracleNode>, signers: Seq<Bytes32>, per: i128) -> bool {
    forall|k: int|
        0 <= k < signers.len() ==> {
            let prev = #[trigger] credit(s, signers.take(k), per);
            i128::MIN <= prev[node_at(prev, signers[k])].rewards + per <= i128::MAX
        }
}

/// Node `n` once judged: slashed and deactivated when the reading was
/// fraudulent, its reputation raised when it was honest.
pub open spec fn judged(n: OracleNode, honest: bool) -> OracleNode {
    if honest {
        OracleNode { reputation: n.reputation.saturating_add(5), ..n }
    } else {
        OracleNode { stake: if n.stake > 0 { 0 } else { n.stake }, active: false, reputation: n.reputation.saturating_sub(10), ..n }
    }
}

/// The nodes after each attestor in `pks`, in turn, is judged.
pub open spec fn judge(s: Seq<OracleNode>, pks: Seq<Bytes32>, honest: bool) -> Seq<OracleNode>
    decreases pks.len(),
{
    if pks.len() == 0 {
        s
    } else {
        let prev = judge(s, pks.drop_last(), honest);
        prev.update(node_at(prev, pks.last()), judged(prev[node_at(prev, pks.last())], honest))
    }
}

/// The stakes slashed when each attestor in `pks`, in turn, is judged
/// fraudulent: the positive stakes, in order.
pub open spec fn slashes(s: Seq<OracleNode>, pks: Seq<Bytes32>) -> Seq<i128>
    decreases pks.len(),
{
    if pks.len() == 0 {
        seq![]
    } else {
        let prev = judge(s, pks.drop_last(), false);
        let n = prev[node_at(prev, pks.last())];
        slashes(s, pks.drop_last()) + if n.stake > 0 {
            seq![n.stake]
        } else {
            seq![]
        }
    }
}

/// The oracle handler's abstract state.
pub ghost struct OracleState {
    pub admin: Address,
    pub paused: bool,
    pub threshold_n: u32,
    pub threshold_d: u32,
    pub rec_token: Option<Address>,
    pub usdc_token: Option<Address>,
    pub minimum_bond: i128,
    pub reward_per_reading: i128,
    pub reward_pool: i128,
    pub price: i128,
    pub oracles: Seq<OracleNode>,
    pub meters: Seq<MeterBinding>,
    pub readings: Seq<ReadingRecord>,
    pub revoked: Set<Bytes32>,
}

impl OracleState {
    /// Whether `pk` is a registered attestor.
    pub open spec fn has_oracle(self, pk: Bytes32) -> bool {
        registered(self.oracles, pk)
    }

    /// The attestor with key `pk`.
    pub open spec fn oracle(self, pk: Bytes32) -> OracleNode {
        self.oracles[node_at(self.oracles, pk)]
    }

    /// The state with attestor `pk` replaced by `n`.
    pub open spec fn with_oracle(self, pk: Bytes32, n: OracleNode) -> OracleState {
        OracleState { oracles: self.oracles.update(node_at(self.oracles, pk), n), ..self }
    }

    /// Whether meter `id` is bound.
    pub open spec fn has_meter(self, id: Bytes32) -> bool {
        exists|i: int| 0 <= i < self.meters.len() && (#[trigger] self.meters[i]).meter_id == id
    }

    /// Position of meter `id`.
    pub open spec fn meter_at(self, id: Bytes32) -> int {
        choose|i: int| 0 <= i < self.meters.len() && (#[trigger] self.meters[i]).meter_id == id
    }

    /// The binding of meter `id`.
    pub open spec fn meter(self, id: Bytes32) -> MeterBinding {
        self.meters[self.meter_at(id)]
    }

    /// Whether a reading with this id was recorded.
    pub open spec fn has_reading(self, h: Bytes32) -> bool {
        exists|i: int| 0 <= i < self.readings.len() && (#[trigger] self.readings[i]).reading_hash == h
    }

    /// Position of reading `h`.
    pub open spec fn reading_at(self, h: Bytes32) -> int {
        choose|i: int| 0 <= i < self.readings.len() && (#[trigger] self.readings[i]).reading_hash == h
    }

    /// The reading with id `h`.
    pub open spec fn reading(self, h: Bytes32) -> ReadingRecord {
        self.readings[self.reading_at(h)]
    }

    /// The first signer that fails the bond checks, with its error.
    pub open spec fn signer_check(self, signers: Seq<Bytes32>) -> Result<(), OracleError>
        decreases signers.len(),
    {
        if signers.len() == 0 {
            Ok(())
        } else {
            match self.signer_check(signers.drop_last()) {
                Err(e) => Err(e),
                Ok(_) => {
                    let pk = signers.last();
                    if !self.has_oracle(pk) {
                        Err(OracleError::InvalidSignature)
                    } else if !self.oracle(pk).active {
                        Err(OracleError::InvalidSignature)
                    } else if self.oracle(pk).stake < self.minimum_bond {
                        Err(OracleError::BondTooLow)
                    } else {
                        Ok(())
                    }
                },
            }
        }
    }

    /// The checks a reading of `mwh` from meter `meter_id` attested by
    /// `signers` makes before it is minted, in order.
    pub open spec fn reading_check(self, meter_id: Bytes32, mwh: u64, signers: Seq<Bytes32>, h: Bytes32) -> Result<(), OracleError> {
        if self.paused {
            Err(OracleError::ContractPaused)
        } else if !self.has_meter(meter_id) {
            Err(OracleError::MeterNotBound)
        } else if mwh > self.meter(meter_id).capacity_mw * 24 {
            Err(OracleError::InvalidMeterReading)
        } else if signers.len() < self.threshold_n {
            Err(OracleError::ThresholdNotMet)
        } else if self.has_reading(h) {
            Err(OracleError::Unauthorized)
        } else {
            self.signer_check(signers)
        }
    }

    /// Whether a reading of `mwh` from meter `meter_id` attested by
    /// `signers` passes every check but the one for a repeated reading.
    pub open spec fn attested(self, meter_id: Bytes32, mwh: u64, signers: Seq<Bytes32>) -> bool {
        &&& !self.paused
        &&& self.has_meter(meter_id)
        &&& mwh <= self.meter(meter_id).capacity_mw * 24
        &&& signers.len() >= self.threshold_n
        &&& self.signer_check(signers) is Ok
    }

    /// The arithmetic of recording an attested reading stays within machine
    /// integers.
    pub open spec fn reading_fits(self, meter_id: Bytes32, mwh: u64, signers: Seq<Bytes32>) -> bool {
        &&& self.capacity_fits(meter_id)
        &&& (self.attested(meter_id, mwh, signers) ==> {
            &&& i128::MIN <= self.reward_per_reading * signers.len() <= i128::MAX
            &&& (self.pays(signers.len()) ==> i128::MIN <= self.reward_pool - self.reward_per_reading * signers.len() <= i128::MAX
                && credit_fits(self.oracles, signers, self.reward_per_reading))
        })
    }

    /// A day at the full capacity of meter `meter_id`, when it is checked,
    /// stays within machine integers.
    pub open spec fn capacity_fits(self, meter_id: Bytes32) -> bool {
        !self.paused && self.has_meter(meter_id) ==> self.meter(meter_id).capacity_mw * 24 <= u64::MAX
    }

    /// The record of a reading.
    pub open spec fn record_of(meter_id: Bytes32, mwh: u64, generation_timestamp: u64, signers: Vec<Bytes32>, h: Bytes32, token_id: u64) -> ReadingRecord {
        ReadingRecord {
            reading_hash: h,
            meter_id,
            mwh,
            timestamp: generation_timestamp,
            oracle_count: signers@.len() as u32,
            threshold_met: true,
            disputed: false,
            resolved: false,
            token_id: Some(token_id),
            oracles: signers,
        }
    }

    /// The state once a checked reading, minted as `token_id`, is recorded
    /// and, when the pool can pay, its attestors are rewarded.
    pub open spec fn recorded(self, meter_id: Bytes32, mwh: u64, generation_timestamp: u64, signers: Vec<Bytes32>, h: Bytes32, token_id: u64) -> OracleState {
        let k = signers@.len();
        OracleState {
            readings: self.readings.push(Self::record_of(meter_id, mwh, generation_timestamp, signers, h, token_id)),
            oracles: if self.pays(k) {
                credit(self.oracles, signers@, self.reward_per_reading)
            } else {
                self.oracles
            },
            reward_pool: if self.pays(k) {
                (self.reward_pool - self.reward_per_reading * k) as i128
            } else {
                self.reward_pool
            },
            ..self
        }
    }

    /// The state with reward pool `p`.
    pub open spec fn with_pool(self, p: i128) -> OracleState {
        OracleState { reward_pool: p, ..self }
    }

    /// Whether the pool pays a reading attested by `k` signers.
    pub open spec fn pays(self, k: nat) -> bool {
        self.reward_pool >= self.reward_per_reading * k && k > 0
    }
}

/// The oracle handler's state.
pub struct OracleHandlerContract {
    admin: Address,
    paused: bool,
    threshold_n: u32,
    threshold_d: u32,
    rec_token: Option<Address>,
    usdc_token: Option<Address>,
    minimum_bond: i128,
    reward_per_reading: i128,
    reward_pool: i128,
    price: i128,
    oracles: Vec<OracleNode>,
    meters: Vec<MeterBinding>,
    readings: Vec<ReadingRecord>,
    revoked: Vec<Bytes32>,
}

impl View for OracleHandlerContract {
    type V = OracleState;

    closed spec fn view(&self) -> OracleState {
        OracleState {
            admin: self.admin,
            paused: self.paused,
            threshold_n: self.threshold_n,
            threshold_d: self.threshold_d,
            rec_token: self.rec_token,
            usdc_token: self.usdc_token,
            minimum_bond: self.minimum_bond,
            reward_per_reading: self.reward_per_reading,
            reward_pool: self.reward_pool,
            price: self.price,
            oracles: self.oracles@,
            meters: self.meters@,
            readings: self.readings@,
            revoked: self.revoked@.to_set(),
        }
    }
}

impl OracleState {
    /// The handler's consistency, as seen in its abstract state.
    pub open spec fn consistent(self) -> bool {
        &&& 0 < self.threshold_n <= self.threshold_d
        &&& self.oracles.len() <= u32::MAX
        &&& nodes_unique(self.oracles)
        &&& forall|i: int, j: int| 0 <= i < j < self.meters.len() ==> (#[trigger] self.meters[i]).meter_id != (#[trigger] self.meters[j]).meter_id
        &&& forall|i: int, j: int| 0 <= i < j < self.readings.len() ==> (#[trigger] self.readings[i]).reading_hash != (#[trigger] self.readings[j]).reading_hash
        &&& forall|i: int, k: int| 0 <= i < self.readings.len() && 0 <= k < self.readings[i].oracles@.len() ==> registered(self.oracles, #[trigger] self.readings[i].oracles@[k])
        &&& forall|pk: Bytes32| #[trigger] self.revoked.contains(pk) ==> self.has_oracle(pk) && !self.oracle(pk).active
    }
}

} // verus!

verus! {

/// Two node lists with the same keys in the same places.
pub open spec fn same_keys(a: Seq<OracleNode>, b: Seq<OracleNode>) -> bool {
    a.len() == b.len() && forall|i: int| 0 <= i < a.len() ==> (#[trigger] a[i]).pubkey == b[i].pubkey
}

proof fn lemma_same_keys(a: Seq<OracleNode>, b: Seq<OracleNode>)
    requires
        same_keys(a, b),
        nodes_unique(a),
    ensures
        nodes_unique(b),
        forall|pk: Bytes32| registered(a, pk) == #[trigger] registered(b, pk),
        forall|pk: Bytes32| registered(a, pk) ==> node_at(a, pk) == #[trigger] node_at(b, pk),
{
    assert forall|i: int, j: int| 0 <= i < j < b.len() implies (#[trigger] b[i]).pubkey != (#[trigger] b[j]).pubkey by {
        assert(a[i].pubkey != a[j].pubkey);
    }
    assert forall|pk: Bytes32| registered(a, pk) == #[trigger] registered(b, pk) by {
        if registered(a, pk) {
            let i = choose|i: int| 0 <= i < a.len() && (#[trigger] a[i]).pubkey == pk;
            assert(b[i].pubkey == pk);
        }
        if registered(b, pk) {
            let i = choose|i: int| 0 <= i < b.len() && (#[trigger] b[i]).pubkey == pk;
            assert(a[i].pubkey == pk);
        }
    }
    assert forall|pk: Bytes32| registered(a, pk) implies node_at(a, pk) == #[trigger] node_at(b, pk) by {
        let i = node_at(a, pk);
        let j = node_at(b, pk);
        assert(registered(b, pk));
        assert(a[i].pubkey == pk);
        assert(b[j].pubkey == pk);
        assert(a[j].pubkey == pk);
        if i < j {
            assert(a[i].pubkey != a[j].pubkey);
        } else if j < i {
            assert(a[j].pubkey != a[i].pubkey);
        }
    }
}

proof fn lemma_credit_keys(s: Seq<OracleNode>, signers: Seq<Bytes32>, per: i128)
    requires
        nodes_unique(s),
        forall|k: int| 0 <= k < signers.len() ==> registered(s, #[trigger] signers[k]),
    ensures
        same_keys(s, credit(s, signers, per)),
    decreases signers.len(),
{
    if signers.len() > 0 {
        let sd = signers.drop_last();
        assert forall|k: int| 0 <= k < sd.len() implies registered(s, #[trigger] sd[k]) by {
            assert(sd[k] == signers[k]);
        }
        lemma_credit_keys(s, sd, per);
        let prev = credit(s, sd, per);
        lemma_same_keys(s, prev);
        assert(registered(s, signers[signers.len() - 1]));
        assert(registered(prev, signers.last()));
    }
}

proof fn lemma_judge_keys(s: Seq<OracleNode>, pks: Seq<Bytes32>, honest: bool)
    requires
        nodes_unique(s),
        forall|k: int| 0 <= k < pks.len() ==> registered(s, #[trigger] pks[k]),
    ensures
        same_keys(s, judge(s, pks, honest)),
    decreases pks.len(),
{
    if pks.len() > 0 {
        let pd = pks.drop_last();
        assert forall|k: int| 0 <= k < pd.len() implies registered(s, #[trigger] pd[k]) by {
            assert(pd[k] == pks[k]);
        }
        lemma_judge_keys(s, pd, honest);
        let prev = judge(s, pd, honest);
        lemma_same_keys(s, prev);
        assert(registered(s, pks[pks.len() - 1]));
        assert(registered(prev, pks.last()));
    }
}

/// Replacing a node by one with the same key, which activates it only if
/// it was never revoked, keeps the state consistent.
proof fn lemma_replace_node(s: OracleState, i: int, n: OracleNode)
    requires
        s.consistent(),
        0 <= i < s.oracles.len(),
        n.pubkey == s.oracles[i].pubkey,
        n.active ==> s.oracles[i].active || !s.revoked.contains(n.pubkey),
    ensures
        (OracleState { oracles: s.oracles.update(i, n), ..s }).consistent(),
{
    let o2 = s.oracles.update(i, n);
    assert(same_keys(s.oracles, o2));
    lemma_same_keys(s.oracles, o2);
    let s2 = OracleState { oracles: o2, ..s };
    assert forall|r: int, k: int| 0 <= r < s2.readings.len() && 0 <= k < s2.readings[r].oracles@.len() implies registered(s2.oracles, #[trigger] s2.readings[r].oracles@[k]) by {
        assert(registered(s.oracles, s.readings[r].oracles@[k]));
    }
    assert(s.oracles[i].pubkey == n.pubkey);
    lemma_node_at(s.oracles, i);
    assert forall|pk: Bytes32| #[trigger] s2.revoked.contains(pk) implies s2.has_oracle(pk) && !s2.oracle(pk).active by {
        assert(s.has_oracle(pk) && !s.oracle(pk).active);
        assert(node_at(o2, pk) == node_at(s.oracles, pk));
    }
}

/// The key at position `i` of a list of unique keys is found at `i`.
proof fn lemma_node_at(s: Seq<OracleNode>, i: int)
    requires
        nodes_unique(s),
        0 <= i < s.len(),
    ensures
        registered(s, s[i].pubkey),
        node_at(s, s[i].pubkey) == i,
{
    assert(registered(s, s[i].pubkey));
    let j = node_at(s, s[i].pubkey);
    if j < i {
        assert(s[j].pubkey != s[i].pubkey);
    } else if i < j {
        assert(s[i].pubkey != s[j].pubkey);
    }
}

proof fn lemma_signer_prefix(st: OracleState, s: Seq<Bytes32>, n: int)
    requires
        0 <= n <= s.len(),
        st.signer_check(s.take(n)) is Err,
    ensures
        st.signer_check(s) == st.signer_check(s.take(n)),
    decreases s.len() - n,
{
    if n < s.len() {
        assert(s.take(n + 1).drop_last() =~= s.take(n));
        lemma_signer_prefix(st, s, n + 1);
    } else {
        assert(s.take(n) =~= s);
    }
}

proof fn lemma_signers_registered(st: OracleState, s: Seq<Bytes32>)
    requires
        st.signer_check(s) is Ok,
    ensures
        forall|k: int| 0 <= k < s.len() ==> registered(st.oracles, #[trigger] s[k]),
    decreases s.len(),
{
    if s.len() > 0 {
        lemma_signers_registered(st, s.drop_last());
        assert forall|k: int| 0 <= k < s.len() implies registered(st.oracles, #[trigger] s[k]) by {
            if k < s.len() - 1 {
                assert(s.drop_last()[k] == s[k]);
            }
        }
    }
}

/// Position of `pk` among `nodes`, when registered.
/// Whether every key in `revoked` is that of a registered, inactive
/// attestor in `nodes`.
fn revoked_inactive(nodes: &Vec<OracleNode>, revoked: &Vec<Bytes32>) -> (r: bool)
    requires
        nodes_unique(nodes@),
    ensures
        r == forall|pk: Bytes32| #[trigger] revoked@.contains(pk) ==> registered(nodes@, pk) && !nodes@[node_at(nodes@, pk)].active,
{
    let mut a: usize = 0;
    while a < revoked.len()
        invariant
            nodes_unique(nodes@),
            0 <= a <= revoked@.len(),
            forall|j: int| 0 <= j < a ==> registered(nodes@, #[trigger] revoked@[j]) && !nodes@[node_at(nodes@, revoked@[j])].active,
        decreases revoked@.len() - a,
    {
        match find_oracle(nodes, &revoked[a]) {
            Some(i) => {
                if nodes[i].active {
                    assert(revoked@.contains(revoked@[a as int]));
                    return false;
                }
            },
            None => {
                assert(revoked@.contains(revoked@[a as int]));
                return false;
            },
        }
        a = a + 1;
    }
    assert forall|pk: Bytes32| #[trigger] revoked@.contains(pk) implies registered(nodes@, pk) && !nodes@[node_at(nodes@, pk)].active by {
        let j = choose|j: int| 0 <= j < revoked@.len() && revoked@[j] == pk;
        assert(registered(nodes@, revoked@[j]));
    }
    true
}

fn find_oracle(nodes: &Vec<OracleNode>, pk: &Bytes32) -> (r: Option<usize>)
    requires
        nodes_unique(nodes@),
    ensures
        r matches Some(i) ==> i < nodes@.len() && nodes@[i as int].pubkey == *pk && i == node_at(
            nodes@,
            *pk,
        ) && registered(nodes@, *pk),
        r is None ==> !registered(nodes@, *pk),
{
    let mut i: usize = 0;
    while i < nodes.len()
        invariant
            0 <= i <= nodes@.len(),
            nodes_unique(nodes@),
            forall|j: int| 0 <= j < i ==> (#[trigger] nodes@[j]).pubkey != *pk,
        decreases nodes@.len() - i,
    {
        if bytes32_eq(&nodes[i].pubkey, pk) {
            proof {
                assert(registered(nodes@, *pk));
                let j = node_at(nodes@, *pk);
                if j != i {
                    if j < i {
                        assert(nodes@[j].pubkey != *pk);
                    } else {
                        assert(nodes@[i as int].pubkey != nodes@[j].pubkey);
                    }
                }
            }
            return Some(i);
        }
        i = i + 1;
    }
    None
}

/// A handler's state as plain values, for storing between calls.
#[derive(Clone, Debug, PartialEq, Eq)]
pub struct OracleData {
    pub admin: Address,
    pub paused: bool,
    pub threshold_n: u32,
    pub threshold_d: u32,
    pub rec_token: Option<Address>,
    pub usdc_token: Option<Address>,
    pub minimum_bond: i128,
    pub reward_per_reading: i128,
    pub reward_pool: i128,
    pub price: i128,
    pub oracles: Vec<OracleNode>,
    pub meters: Vec<MeterBinding>,
    pub readings: Vec<ReadingRecord>,
    pub revoked: Vec<Bytes32>,
}

impl OracleData {
    /// The abstract state these values describe.
    pub open spec fn state(self) -> OracleState {
        OracleState {
            admin: self.admin,
            paused: self.paused,
            threshold_n: self.threshold_n,
            threshold_d: self.threshold_d,
            rec_token: self.rec_token,
            usdc_token: self.usdc_token,
            minimum_bond: self.minimum_bond,
            reward_per_reading: self.reward_per_reading,
            reward_pool: self.reward_pool,
            price: self.price,
            oracles: self.oracles@,
            meters: self.meters@,
            readings: self.readings@,
            revoked: self.revoked@.to_set(),
        }
    }
}

impl OracleHandlerContract {
    /// The handler's internal consistency.
    pub closed spec fn wf(&self) -> bool {
        self@.consistent()
    }

    /// A well-formed handler is consistent in its abstract state.
    pub proof fn lemma_wf_consistent(&self)
        requires
            self.wf(),
        ensures
            self@.consistent(),
    {
    }

    /// The handler rebuilt from stored values; `None` unless they describe
    /// a consistent state.
    pub fn restore(data: OracleData) -> (r: Option<OracleHandlerContract>)
        ensures
            r is Some <==> data.state().consistent(),
            r matches Some(c) ==> c.wf() && c@ == data.state(),
    {
        let ghost d = data;
        if data.threshold_n == 0 || data.threshold_n > data.threshold_d || data.oracles.len() as u64 > u32::MAX as u64 {
            return None;
        }
        let mut a: usize = 0;
        while a < data.oracles.len()
            invariant
                d == data,
                0 < data.threshold_n <= data.threshold_d,
                data.oracles@.len() <= u32::MAX,
                0 <= a <= data.oracles@.len(),
                forall|x: int, y: int| 0 <= x < y < a ==> (#[trigger] data.oracles@[x]).pubkey != (#[trigger] data.oracles@[y]).pubkey,
            decreases data.oracles@.len() - a,
        {
            let mut b: usize = 0;
            while b < a
                invariant
                    d == data,
                    0 <= b <= a < data.oracles@.len(),
                    forall|y: int| 0 <= y < b ==> (#[trigger] data.oracles@[y]).pubkey != data.oracles@[a as int].pubkey,
                decreases a - b,
            {
                if bytes32_eq(&data.oracles[b].pubkey, &data.oracles[a].pubkey) {
                    return None;
                }
                b = b + 1;
            }
            a = a + 1;
        }
        let mut a: usize = 0;
        while a < data.meters.len()
            invariant
                d == data,
                0 < data.threshold_n <= data.threshold_d,
                data.oracles@.len() <= u32::MAX,
                nodes_unique(data.oracles@),
                0 <= a <= data.meters@.len(),
                forall|x: int, y: int| 0 <= x < y < a ==> (#[trigger] data.meters@[x]).meter_id != (#[trigger] data.meters@[y]).meter_id,
            decreases data.meters@.len() - a,
        {
            let mut b: usize = 0;
            while b < a
                invariant
                    d == data,
                    0 <= b <= a < data.meters@.len(),
                    forall|y: int| 0 <= y < b ==> (#[trigger] data.meters@[y]).meter_id != data.meters@[a as int].meter_id,
                decreases a - b,
            {
                if bytes32_eq(&data.meters[b].meter_id, &data.meters[a].meter_id) {
                    return None;
                }
                b = b + 1;
            }
            a = a + 1;
        }
        let mut a: usize = 0;
        while a < data.readings.len()
            invariant
                d == data,
                0 < data.threshold_n <= data.threshold_d,
                data.oracles@.len() <= u32::MAX,
                nodes_unique(data.oracles@),
                forall|x: int, y: int| 0 <= x < y < data.meters@.len() ==> (#[trigger] data.meters@[x]).meter_id != (#[trigger] data.meters@[y]).meter_id,
                0 <= a <= data.readings@.len(),
                forall|x: int, y: int| 0 <= x < y < a ==> (#[trigger] data.readings@[x]).reading_hash != (#[trigger] data.readings@[y]).reading_hash,
                forall|x: int, k: int| 0 <= x < a && 0 <= k < data.readings@[x].oracles@.len() ==> registered(data.oracles@, #[trigger] data.readings@[x].oracles@[k]),
            decreases data.readings@.len() - a,
        {
            let mut b: usize = 0;
            while b < a
                invariant
                    d == data,
                    0 <= b <= a < data.readings@.len(),
                    forall|y: int| 0 <= y < b ==> (#[trigger] data.readings@[y]).reading_hash != data.readings@[a as int].reading_hash,
                decreases a - b,
            {
                if bytes32_eq(&data.readings[b].reading_hash, &data.readings[a].reading_hash) {
                    return None;
                }
                b = b + 1;
            }
            let mut k: usize = 0;
            while k < data.readings[a].oracles.len()
                invariant
                    d == data,
                    nodes_unique(data.oracles@),
                    0 <= a < data.readings@.len(),
                    0 <= k <= data.readings@[a as int].oracles@.len(),
                    forall|j: int| 0 <= j < k ==> registered(data.oracles@, #[trigger] data.readings@[a as int].oracles@[j]),
                decreases data.readings@[a as int].oracles@.len() - k,
            {
                if find_oracle(&data.oracles, &data.readings[a].oracles[k]).is_none() {
                    return None;
                }
                k = k + 1;
            }
            a = a + 1;
        }
        if !revoked_inactive(&data.oracles, &data.revoked) {
            proof {
                let pk = choose|pk: Bytes32| #[trigger] data.revoked@.contains(pk) && !(registered(data.oracles@, pk)
                    && !data.oracles@[node_at(data.oracles@, pk)].active);
                assert(data.state().revoked.contains(pk));
            }
            return None;
        }
        proof {
            assert forall|pk: Bytes32| #[trigger] data.state().revoked.contains(pk) implies data.state().has_oracle(pk)
                && !data.state().oracle(pk).active by {
                assert(data.revoked@.contains(pk));
            }
        }
        Some(OracleHandlerContract {
            admin: data.admin,
            paused: data.paused,
            threshold_n: data.threshold_n,
            threshold_d: data.threshold_d,
            rec_token: data.rec_token,
            usdc_token: data.usdc_token,
            minimum_bond: data.minimum_bond,
            reward_per_reading: data.reward_per_reading,
            reward_pool: data.reward_pool,
            price: data.price,
            oracles: data.oracles,
            meters: data.meters,
            readings: data.readings,
            revoked: data.revoked,
        })
    }

    /// The handler's state as plain values.
    pub fn data(&self) -> (r: OracleData)
        ensures
            (OracleState { oracles: self@.oracles, readings: self@.readings, ..r.state() }) == self@,
            r.oracles@.len() == self@.oracles.len(),
            forall|i: int| 0 <= i < r.oracles@.len() ==> (#[trigger] r.oracles@[i]).same_content(self@.oracles[i]),
            r.readings@.len() == self@.readings.len(),
            forall|i: int| 0 <= i < r.readings@.len() ==> (#[trigger] r.readings@[i]).same_content(self@.readings[i]),
    {
        let meters = self.meters.clone();
        proof {
            assert(meters@ =~= self.meters@);
        }
        let mut revoked: Vec<Bytes32> = Vec::new();
        let mut j: usize = 0;
        while j < self.revoked.len()
            invariant
                0 <= j <= self.revoked@.len(),
                revoked@ == self.revoked@.take(j as int),
            decreases self.revoked@.len() - j,
        {
            revoked.push(self.revoked[j]);
            j = j + 1;
            proof {
                assert(revoked@ =~= self.revoked@.take(j as int));
            }
        }
        proof {
            assert(self.revoked@.take(self.revoked@.len() as int) =~= self.revoked@);
        }
        let mut oracles: Vec<OracleNode> = Vec::new();
        let mut i: usize = 0;
        while i < self.oracles.len()
            invariant
                0 <= i <= self.oracles@.len(),
                oracles@.len() == i,
                forall|j: int| 0 <= j < i ==> (#[trigger] oracles@[j]).same_content(self.oracles@[j]),
            decreases self.oracles@.len() - i,
        {
            oracles.push(self.oracles[i].duplicate());
            i = i + 1;
        }
        let mut readings: Vec<ReadingRecord> = Vec::new();
        let mut i: usize = 0;
        while i < self.readings.len()
            invariant
                0 <= i <= self.readings@.len(),
                readings@.len() == i,
                forall|j: int| 0 <= j < i ==> (#[trigger] readings@[j]).same_content(self.readings@[j]),
            decreases self.readings@.len() - i,
        {
            readings.push(self.readings[i].duplicate());
            i = i + 1;
        }
        OracleData {
            admin: self.admin,
            paused: self.paused,
            threshold_n: self.threshold_n,
            threshold_d: self.threshold_d,
            rec_token: self.rec_token,
            usdc_token: self.usdc_token,
            minimum_bond: self.minimum_bond,
            reward_per_reading: self.reward_per_reading,
            reward_pool: self.reward_pool,
            price: self.price,
            oracles,
            meters,
            readings,
            revoked,
        }
    }

    /// An empty handler run by `admin`: one-of-one threshold, default bond
    /// and reward, empty pool.
    pub fn new(admin: Address) -> (r: OracleHandlerContract)
        ensures
            r.wf(),
            r@ == (OracleState {
                admin,
                paused: false,
                threshold_n: 1,
                threshold_d: 1,
                rec_token: None,
                usdc_token: None,
                minimum_bond: DEFAULT_MINIMUM_BOND,
                reward_per_reading: DEFAULT_REWARD_PER_READING,
                reward_pool: 0,
                price: 0,
                oracles: seq![],
                meters: seq![],
                readings: seq![],
                revoked: Set::empty(),
            }),
    {
        let r = OracleHandlerContract {
            admin,
            paused: false,
            threshold_n: 1,
            threshold_d: 1,
            rec_token: None,
            usdc_token: None,
            minimum_bond: DEFAULT_MINIMUM_BOND,
            reward_per_reading: DEFAULT_REWARD_PER_READING,
            reward_pool: 0,
            price: 0,
            oracles: Vec::new(),
            meters: Vec::new(),
            readings: Vec::new(),
            revoked: Vec::new(),
        };
        assert(r@.revoked =~= Set::<Bytes32>::empty());
        r
    }

    /// The administrator.
    pub fn admin(&self) -> (r: Address)
        ensures
            r == self@.admin,
    {
        self.admin
    }

    /// Hands administration to `new_admin`.
    pub fn transfer_admin(&mut self, new_admin: Address)
        requires
            old(self).wf(),
        ensures
            final(self).wf(),
            final(self)@ == (OracleState { admin: new_admin, ..old(self)@ }),
    {
        self.admin = new_admin;
    }

    /// Sets the certificate token contract that readings mint on.
    pub fn set_rec_token(&mut self, addr: Address)
        requires
            old(self).wf(),
        ensures
            final(self).wf(),
            final(self)@ == (OracleState { rec_token: Some(addr), ..old(self)@ }),
    {
        self.rec_token = Some(addr);
    }

    /// The certificate token contract, once set.
    pub fn rec_token(&self) -> (r: Option<Address>)
        ensures
            r == self@.rec_token,
    {
        self.rec_token
    }

    /// Sets the currency contract bonds and rewards are paid in.
    pub fn set_usdc_token(&mut self, addr: Address)
        requires
            old(self).wf(),
        ensures
            final(self).wf(),
            final(self)@ == (OracleState { usdc_token: Some(addr), ..old(self)@ }),
    {
        self.usdc_token = Some(addr);
    }

    /// The currency contract, once set.
    pub fn usdc_token(&self) -> (r: Option<Address>)
        ensures
            r == self@.usdc_token,
    {
        self.usdc_token
    }

    /// Registers attestor `pubkey`, inactive and unbonded, at time `now`.
    /// Fails with `OracleAlreadyRegistered` for a known key.
    pub fn register_oracle(&mut self, pubkey: Bytes32, uri: Vec<u8>, operator: Address, now: u64) -> (r: Result<(), OracleError>)
        requires
            old(self).wf(),
            old(self)@.oracles.len() < u32::MAX,
        ensures
            final(self).wf(),
            old(self)@.has_oracle(pubkey) ==> r == Err::<(), OracleError>(OracleError::OracleAlreadyRegistered)
                && final(self)@ == old(self)@,
            !old(self)@.has_oracle(pubkey) ==> r == Ok::<(), OracleError>(()) && final(self)@ == (OracleState {
                oracles: old(self)@.oracles.push(
                    OracleNode {
                        pubkey,
                        uri,
                        operator,
                        active: false,
                        registered_at: now,
                        stake: 0,
                        rewards: 0,
                        reputation: 0,
                    },
                ),
                ..old(self)@
            }),
    {
        if find_oracle(&self.oracles, &pubkey).is_some() {
            return Err(OracleError::OracleAlreadyRegistered);
        }
        let ghost o0 = self.oracles@;
        let ghost sb = self@;
        self.oracles.push(
            OracleNode {
                pubkey,
                uri,
                operator,
                active: false,
                registered_at: now,
                stake: 0,
                rewards: 0,
                reputation: 0,
            },
        );
        proof {
            assert forall|i: int, j: int| 0 <= i < j < self.oracles@.len() implies (#[trigger] self.oracles@[i]).pubkey != (#[trigger] self.oracles@[j]).pubkey by {
                if j == o0.len() {
                    assert(o0[i].pubkey != pubkey);
                }
            }
            assert forall|i: int, k: int| 0 <= i < self@.readings.len() && 0 <= k < self@.readings[i].oracles@.len() implies registered(self@.oracles, #[trigger] self@.readings[i].oracles@[k]) by {
                assert(registered(o0, self@.readings[i].oracles@[k]));
                let m = choose|m: int| 0 <= m < o0.len() && (#[trigger] o0[m]).pubkey == self@.readings[i].oracles@[k];
                assert(self@.oracles[m] == o0[m]);
            }
            assert forall|pk: Bytes32| #[trigger] self@.revoked.contains(pk) implies self@.has_oracle(pk) && !self@.oracle(pk).active by {
                assert(sb.revoked.contains(pk));
                let j = node_at(o0, pk);
                assert(o0[j].pubkey == pk);
                assert(self@.oracles[j] == o0[j]);
                lemma_node_at(self@.oracles, j);
            }
        }
        Ok(())
    }

    /// Removes attestor `pubkey` from service for good: it is deactivated and
    /// no bond can activate it again. Its record stays readable. Fails with
    /// `OracleNotFound`.
    pub fn revoke_oracle(&mut self, pubkey: Bytes32) -> (r: Result<(), OracleError>)
        requires
            old(self).wf(),
        ensures
            final(self).wf(),
            !old(self)@.has_oracle(pubkey) ==> r == Err::<(), OracleError>(OracleError::OracleNotFound)
                && final(self)@ == old(self)@,
            old(self)@.has_oracle(pubkey) ==> r == Ok::<(), OracleError>(()) && final(self)@ == (OracleState {
                revoked: old(self)@.revoked.insert(pubkey),
                ..old(self)@.with_oracle(pubkey, OracleNode { active: false, ..old(self)@.oracle(pubkey) })
            }),
    {
        let i = match find_oracle(&self.oracles, &pubkey) {
            Some(i) => i,
            None => {
                return Err(OracleError::OracleNotFound);
            },
        };
        let ghost s0 = self@;
        let mut n = self.oracles.remove(i);
        n.active = false;
        self.oracles.insert(i, n);
        proof {
            lemma_replace_node(s0, i as int, n);
            assert(self.oracles@ =~= s0.oracles.update(i as int, n));
        }
        let ghost rv = self.revoked@;
        let ghost s1 = self@;
        if !self.is_revoked(&pubkey) {
            self.revoked.push(pubkey);
        }
        proof {
            lemma_node_at(s1.oracles, i as int);
            assert(self.revoked@.to_set() =~= rv.to_set().insert(pubkey)) by {
                assert forall|x: Bytes32| self.revoked@.contains(x) == (rv.contains(x) || x == pubkey) by {
                    if self.revoked@.len() > rv.len() {
                        if rv.contains(x) {
                            let k = choose|k: int| 0 <= k < rv.len() && rv[k] == x;
                            assert(self.revoked@[k] == x);
                        }
                        if x == pubkey {
                            assert(self.revoked@[rv.len() as int] == x);
                        }
                        if self.revoked@.contains(x) {
                            let k = choose|k: int| 0 <= k < self.revoked@.len() && self.revoked@[k] == x;
                            if k < rv.len() {
                                assert(rv[k] == x);
                            }
                        }
                    }
                }
            }
            assert forall|pk: Bytes32| #[trigger] self@.revoked.contains(pk) implies self@.has_oracle(pk) && !self@.oracle(pk).active by {
                if pk != pubkey {
                    assert(s1.revoked.contains(pk));
                }
            }
        }
        Ok(())
    }

    /// Whether attestor `pubkey` was ever revoked.
    fn is_revoked(&self, pubkey: &Bytes32) -> (r: bool)
        ensures
            r == self@.revoked.contains(*pubkey),
    {
        let mut i: usize = 0;
        while i < self.revoked.len()
            invariant
                0 <= i <= self.revoked@.len(),
                forall|j: int| 0 <= j < i ==> self.revoked@[j] != *pubkey,
            decreases self.revoked@.len() - i,
        {
            if bytes32_eq(&self.revoked[i], pubkey) {
                assert(self.revoked@[i as int] == *pubkey);
                return true;
            }
            i = i + 1;
        }
        false
    }

    /// Sets the attestation threshold to `n` of `d`; fails with
    /// `Unauthorized` unless `0 < n <= d`.
    pub fn set_threshold(&mut self, n: u32, d: u32) -> (r: Result<(), OracleError>)
        requires
            old(self).wf(),
        ensures
            final(self).wf(),
            (n == 0 || d == 0 || n > d) ==> r == Err::<(), OracleError>(OracleError::Unauthorized)
                && final(self)@ == old(self)@,
            !(n == 0 || d == 0 || n > d) ==> r == Ok::<(), OracleError>(()) && final(self)@ == (OracleState {
                threshold_n: n,
                threshold_d: d,
                ..old(self)@
            }),
    {
        if n == 0 || d == 0 || n > d {
            return Err(OracleError::Unauthorized);
        }
        self.threshold_n = n;
        self.threshold_d = d;
        Ok(())
    }

    /// The attestation threshold, `n` of `d`.
    pub fn threshold(&self) -> (r: (u32, u32))
        ensures
            r == (self@.threshold_n, self@.threshold_d),
    {
        (self.threshold_n, self.threshold_d)
    }

    /// Sets the bond an attestor needs to be active.
    pub fn set_minimum_bond(&mut self, amount: i128)
        requires
            old(self).wf(),
        ensures
            final(self).wf(),
            final(self)@ == (OracleState { minimum_bond: amount, ..old(self)@ }),
    {
        self.minimum_bond = amount;
    }

    /// The bond an attestor needs to be active.
    pub fn minimum_bond(&self) -> (r: i128)
        ensures
            r == self@.minimum_bond,
    {
        self.minimum_bond
    }

    /// Adds `amount` to the stake of attestor `pubkey`, which becomes active
    /// once its stake reaches the minimum bond, unless it was revoked.
    pub fn deposit_bond(&mut self, pubkey: Bytes32, amount: i128) -> (r: Result<(), OracleError>)
        requires
            old(self).wf(),
            old(self)@.has_oracle(pubkey) ==> i128::MIN <= old(self)@.oracle(pubkey).stake + amount <= i128::MAX,
        ensures
            final(self).wf(),
            !old(self)@.has_oracle(pubkey) ==> r == Err::<(), OracleError>(OracleError::OracleNotFound)
                && final(self)@ == old(self)@,
            old(self)@.has_oracle(pubkey) ==> r == Ok::<(), OracleError>(()) && final(self)@ == old(self)@.with_oracle(
                pubkey,
                OracleNode {
                    stake: (old(self)@.oracle(pubkey).stake + amount) as i128,
                    active: old(self)@.oracle(pubkey).active || (old(self)@.oracle(pubkey).stake + amount
                        >= old(self)@.minimum_bond && !old(self)@.revoked.contains(pubkey)),
                    ..old(self)@.oracle(pubkey)
                },
            ),
    {
        let i = match find_oracle(&self.oracles, &pubkey) {
            Some(i) => i,
            None => {
                return Err(OracleError::OracleNotFound);
            },
        };
        let revoked = self.is_revoked(&pubkey);
        let ghost s0 = self@;
        let mut n = self.oracles.remove(i);
        n.stake = n.stake + amount;
        if n.stake >= self.minimum_bond && !n.active && !revoked {
            n.active = true;
        }
        self.oracles.insert(i, n);
        proof {
            lemma_replace_node(s0, i as int, n);
            assert(self.oracles@ =~= s0.oracles.update(i as int, n));
        }
        Ok(())
    }

    /// Takes `amount` off the stake of attestor `pubkey`, which becomes
    /// inactive once its stake falls below the minimum bond. Fails with
    /// `InsufficientBond` when `amount` exceeds the stake.
    pub fn withdraw_bond(&mut self, pubkey: Bytes32, amount: i128) -> (r: Result<(), OracleError>)
        requires
            old(self).wf(),
            old(self)@.has_oracle(pubkey) ==> i128::MIN <= old(self)@.oracle(pubkey).stake - amount <= i128::MAX,
        ensures
            final(self).wf(),
            !old(self)@.has_oracle(pubkey) ==> r == Err::<(), OracleError>(OracleError::OracleNotFound)
                && final(self)@ == old(self)@,
            old(self)@.has_oracle(pubkey) && amount > old(self)@.oracle(pubkey).stake ==> r == Err::<(), OracleError>(
                OracleError::InsufficientBond,
            ) && final(self)@ == old(self)@,
            old(self)@.has_oracle(pubkey) && amount <= old(self)@.oracle(pubkey).stake ==> r == Ok::<(), OracleError>(())
                && final(self)@ == old(self)@.with_oracle(
                pubkey,
                OracleNode {
                    stake: (old(self)@.oracle(pubkey).stake - amount) as i128,
                    active: old(self)@.oracle(pubkey).active && old(self)@.oracle(pubkey).stake - amount
                        >= old(self)@.minimum_bond,
                    ..old(self)@.oracle(pubkey)
                },
            ),
    {
        let i = match find_oracle(&self.oracles, &pubkey) {
            Some(i) => i,
            None => {
                return Err(OracleError::OracleNotFound);
            },
        };
        if amount > self.oracles[i].stake {
            return Err(OracleError::InsufficientBond);
        }
        let ghost s0 = self@;
        let mut n = self.oracles.remove(i);
        n.stake = n.stake - amount;
        if n.stake < self.minimum_bond && n.active {
            n.active = false;
        }
        self.oracles.insert(i, n);
        proof {
            lemma_replace_node(s0, i as int, n);
            assert(self.oracles@ =~= s0.oracles.update(i as int, n));
        }
        Ok(())
    }

    /// Sets what each attestor of a paid reading earns.
    pub fn set_reward_per_reading(&mut self, amount: i128)
        requires
            old(self).wf(),
        ensures
            final(self).wf(),
            final(self)@ == (OracleState { reward_per_reading: amount, ..old(self)@ }),
    {
        self.reward_per_reading = amount;
    }

    /// What each attestor of a paid reading earns.
    pub fn reward_per_reading(&self) -> (r: i128)
        ensures
            r == self@.reward_per_reading,
    {
        self.reward_per_reading
    }

    /// Adds `amount` to the reward pool.
    pub fn fund_reward_pool(&mut self, amount: i128)
        requires
            old(self).wf(),
            i128::MIN <= old(self)@.reward_pool + amount <= i128::MAX,
        ensures
            final(self).wf(),
            final(self)@ == (OracleState { reward_pool: (old(self)@.reward_pool + amount) as i128, ..old(self)@ }),
    {
        self.reward_pool = self.reward_pool + amount;
    }

    /// The reward pool's balance.
    pub fn reward_pool(&self) -> (r: i128)
        ensures
            r == self@.reward_pool,
    {
        self.reward_pool
    }

    /// Sets the reference price.
    pub fn set_price(&mut self, price: i128)
        requires
            old(self).wf(),
        ensures
            final(self).wf(),
            final(self)@ == (OracleState { price, ..old(self)@ }),
    {
        self.price = price;
    }

    /// The reference price; zero until one is set.
    pub fn get_price(&self) -> (r: i128)
        ensures
            r == self@.price,
    {
        self.price
    }

    /// Pays out the accumulated rewards of attestor `pubkey`: returns them
    /// and resets them to zero. Fails with `NoRewardsToClaim` when there
    /// are none.
    pub fn claim_rewards(&mut self, pubkey: Bytes32) -> (r: Result<i128, OracleError>)
        requires
            old(self).wf(),
        ensures
            final(self).wf(),
            !old(self)@.has_oracle(pubkey) ==> r == Err::<i128, OracleError>(OracleError::OracleNotFound)
                && final(self)@ == old(self)@,
            old(self)@.has_oracle(pubkey) && old(self)@.oracle(pubkey).rewards <= 0 ==> r == Err::<i128, OracleError>(
                OracleError::NoRewardsToClaim,
            ) && final(self)@ == old(self)@,
            old(self)@.has_oracle(pubkey) && old(self)@.oracle(pubkey).rewards > 0 ==> r == Ok::<i128, OracleError>(
                old(self)@.oracle(pubkey).rewards,
            ) && final(self)@ == old(self)@.with_oracle(
                pubkey,
                OracleNode { rewards: 0, ..old(self)@.oracle(pubkey) },
            ),
    {
        let i = match find_oracle(&self.oracles, &pubkey) {
            Some(i) => i,
            None => {
                return Err(OracleError::OracleNotFound);
            },
        };
        if self.oracles[i].rewards <= 0 {
            return Err(OracleError::NoRewardsToClaim);
        }
        let ghost s0 = self@;
        let mut n = self.oracles.remove(i);
        let amount = n.rewards;
        n.rewards = 0;
        self.oracles.insert(i, n);
        proof {
            lemma_replace_node(s0, i as int, n);
            assert(self.oracles@ =~= s0.oracles.update(i as int, n));
        }
        Ok(amount)
    }

    /// Position of meter `meter_id`, when bound.
    fn find_meter(&self, meter_id: &Bytes32) -> (r: Option<usize>)
        requires
            self.wf(),
        ensures
            r matches Some(i) ==> i < self@.meters.len() && self@.has_meter(*meter_id) && i == self@.meter_at(*meter_id),
            r is None ==> !self@.has_meter(*meter_id),
    {
        let mut i: usize = 0;
        while i < self.meters.len()
            invariant
                self.wf(),
                0 <= i <= self@.meters.len(),
                forall|j: int| 0 <= j < i ==> (#[trigger] self@.meters[j]).meter_id != *meter_id,
            decreases self@.meters.len() - i,
        {
            if bytes32_eq(&self.meters[i].meter_id, meter_id) {
                proof {
                    assert(self@.meters[i as int].meter_id == *meter_id);
                    let j = self@.meter_at(*meter_id);
                    if j != i {
                        if j < i {
                            assert(self@.meters[j].meter_id != *meter_id);
                        } else {
                            assert(self@.meters[i as int].meter_id != self@.meters[j].meter_id);
                        }
                    }
                }
                return Some(i);
            }
            i = i + 1;
        }
        None
    }

    /// Binds meter `meter_id` to an asset, a receiver and a capacity,
    /// replacing any earlier binding.
    pub fn set_meter(&mut self, meter_id: Bytes32, receiver: Address, asset_id: Bytes32, capacity_mw: u64)
        requires
            old(self).wf(),
        ensures
            final(self).wf(),
            final(self)@.has_meter(meter_id),
            final(self)@.meter(meter_id) == (MeterBinding { meter_id, asset_id, receiver, capacity_mw }),
            forall|m: Bytes32| m != meter_id ==> final(self)@.has_meter(m) == old(self)@.has_meter(m)
                && (old(self)@.has_meter(m) ==> final(self)@.meter(m) == old(self)@.meter(m)),
            final(self)@ == (OracleState { meters: final(self)@.meters, ..old(self)@ }),
    {
        let b = MeterBinding { meter_id, asset_id, receiver, capacity_mw };
        let ghost s0 = self@;
        let ghost mut k: int = 0;
        match self.find_meter(&meter_id) {
            Some(i) => {
                self.meters.set(i, b);
                proof {
                    k = i as int;
                }
            },
            None => {
                self.meters.push(b);
                proof {
                    k = s0.meters.len() as int;
                }
            },
        }
        proof {
            let s1 = self@;
            assert(s1.meters[k] == b);
            assert forall|i: int, j: int| 0 <= i < j < s1.meters.len() implies (#[trigger] s1.meters[i]).meter_id != (#[trigger] s1.meters[j]).meter_id by {
                if j == s0.meters.len() {
                    assert(s0.meters[i].meter_id != meter_id);
                } else if s1.meters[i] != s0.meters[i] || s1.meters[j] != s0.meters[j] {
                    if s1.meters[i] != s0.meters[i] {
                        assert(s0.meters[j].meter_id != s0.meters[i].meter_id);
                    } else {
                        assert(s0.meters[i].meter_id != s0.meters[j].meter_id);
                    }
                }
            }
            assert(s1.has_meter(meter_id));
            let at = s1.meter_at(meter_id);
            if at != k {
                if at < k {
                    assert(s1.meters[at].meter_id != s1.meters[k].meter_id);
                } else {
                    assert(s1.meters[k].meter_id != s1.meters[at].meter_id);
                }
            }
            assert forall|m: Bytes32| m != meter_id implies s1.has_meter(m) == s0.has_meter(m)
                && (s0.has_meter(m) ==> s1.meter(m) == s0.meter(m)) by {
                if s0.has_meter(m) {
                    let j = s0.meter_at(m);
                    assert(s1.meters[j] == s0.meters[j]);
                    assert(s1.has_meter(m));
                    let j1 = s1.meter_at(m);
                    if j1 != j {
                        if j1 < j {
                            assert(s1.meters[j1].meter_id != s1.meters[j].meter_id);
                        } else {
                            assert(s1.meters[j].meter_id != s1.meters[j1].meter_id);
                        }
                    }
                }
                if s1.has_meter(m) {
                    let j1 = s1.meter_at(m);
                    assert(s0.meters[j1] == s1.meters[j1]);
                }
            }
        }
    }

    /// The binding of meter `meter_id`; fails with `MeterNotBound`.
    pub fn get_meter(&self, meter_id: Bytes32) -> (r: Result<MeterBinding, OracleError>)
        requires
            self.wf(),
        ensures
            !self@.has_meter(meter_id) ==> r == Err::<MeterBinding, OracleError>(OracleError::MeterNotBound),
            self@.has_meter(meter_id) ==> r == Ok::<MeterBinding, OracleError>(self@.meter(meter_id)),
    {
        match self.find_meter(&meter_id) {
            Some(i) => Ok(self.meters[i]),
            None => Err(OracleError::MeterNotBound),
        }
    }

    /// Halts reading submission.
    pub fn pause(&mut self)
        requires
            old(self).wf(),
        ensures
            final(self).wf(),
            final(self)@ == (OracleState { paused: true, ..old(self)@ }),
    {
        self.paused = true;
    }

    /// Lifts a halt.
    pub fn resume(&mut self)
        requires
            old(self).wf(),
        ensures
            final(self).wf(),
            final(self)@ == (OracleState { paused: false, ..old(self)@ }),
    {
        self.paused = false;
    }

    /// Whether the handler is halted.
    pub fn paused(&self) -> (r: bool)
        ensures
            r == self@.paused,
    {
        self.paused
    }

    /// Position of reading `h`, when recorded.
    fn find_reading(&self, h: &Bytes32) -> (r: Option<usize>)
        requires
            self.wf(),
        ensures
            r matches Some(i) ==> i < self@.readings.len() && self@.has_reading(*h) && i == self@.reading_at(*h),
            r is None ==> !self@.has_reading(*h),
    {
        let mut i: usize = 0;
        while i < self.readings.len()
            invariant
                self.wf(),
                0 <= i <= self@.readings.len(),
                forall|j: int| 0 <= j < i ==> (#[trigger] self@.readings[j]).reading_hash != *h,
            decreases self@.readings.len() - i,
        {
            if bytes32_eq(&self.readings[i].reading_hash, h) {
                proof {
                    assert(self@.readings[i as int].reading_hash == *h);
                    let j = self@.reading_at(*h);
                    if j != i {
                        if j < i {
                            assert(self@.readings[j].reading_hash != *h);
                        } else {
                            assert(self@.readings[i as int].reading_hash != self@.readings[j].reading_hash);
                        }
                    }
                }
                return Some(i);
            }
            i = i + 1;
        }
        None
    }

    /// The bond checks of the signers, in order: the first signer that is
    /// unknown or inactive fails with `InvalidSignature`, one whose stake is
    /// under the minimum bond with `BondTooLow`.
    pub fn check_signers(&self, signers: &Vec<Bytes32>) -> (r: Result<(), OracleError>)
        requires
            self.wf(),
        ensures
            r == self@.signer_check(signers@),
    {
        let mut k: usize = 0;
        proof {
            assert(signers@.take(0) =~= Seq::<Bytes32>::empty());
        }
        while k < signers.len()
            invariant
                self.wf(),
                0 <= k <= signers@.len(),
                self@.signer_check(signers@.take(k as int)) is Ok,
            decreases signers@.len() - k,
        {
            let pk = signers[k];
            proof {
                assert(signers@.take(k + 1).drop_last() =~= signers@.take(k as int));
                assert(signers@.take(k + 1).last() == pk);
            }
            let e = match find_oracle(&self.oracles, &pk) {
                None => Some(OracleError::InvalidSignature),
                Some(i) => {
                    if !self.oracles[i].active {
                        Some(OracleError::InvalidSignature)
                    } else if self.oracles[i].stake < self.minimum_bond {
                        Some(OracleError::BondTooLow)
                    } else {
                        None
                    }
                },
            };
            match e {
                Some(e) => {
                    proof {
                        lemma_signer_prefix(self@, signers@, k + 1);
                    }
                    return Err(e);
                },
                None => {},
            }
            k = k + 1;
        }
        proof {
            assert(signers@.take(signers@.len() as int) =~= signers@);
        }
        Ok(())
    }

    /// The checks a reading of `mwh` from meter `meter_id`, attested by
    /// `signers` and identified by `reading_hash`, makes before it is
    /// minted; returns the meter's binding when they pass. The signers are
    /// checked as registered, active and bonded attestors; their Ed25519
    /// signatures over the reading are not checked here: the caller has
    /// them verified by the ledger host before it records the reading.
    pub fn check_reading(&self, meter_id: Bytes32, mwh: u64, signers: &Vec<Bytes32>, reading_hash: Bytes32) -> (r: Result<MeterBinding, OracleError>)
        requires
            self.wf(),
            self@.capacity_fits(meter_id),
        ensures
            r matches Err(e) ==> self@.reading_check(meter_id, mwh, signers@, reading_hash) == Err::<(), OracleError>(e),
            r matches Ok(m) ==> self@.reading_check(meter_id, mwh, signers@, reading_hash) is Ok && m == self@.meter(meter_id),
            self@.reading_check(meter_id, mwh, signers@, reading_hash) is Ok ==> r is Ok,
    {
        if self.paused {
            return Err(OracleError::ContractPaused);
        }
        let i = match self.find_meter(&meter_id) {
            Some(i) => i,
            None => {
                return Err(OracleError::MeterNotBound);
            },
        };
        let m = self.meters[i];
        if mwh > m.capacity_mw * 24 {
            return Err(OracleError::InvalidMeterReading);
        }
        if (signers.len() as u64) < (self.threshold_n as u64) {
            return Err(OracleError::ThresholdNotMet);
        }
        if self.find_reading(&reading_hash).is_some() {
            return Err(OracleError::Unauthorized);
        }
        match self.check_signers(signers) {
            Err(e) => Err(e),
            Ok(_) => Ok(m),
        }
    }

    /// Whether recording a reading of `mwh` from meter `meter_id` attested
    /// by `signers` stays within machine integers; the rewards are credited
    /// on a copy.
    pub fn reading_fits_check(&self, meter_id: Bytes32, mwh: u64, signers: &Vec<Bytes32>) -> (r: bool)
        requires
            self.wf(),
        ensures
            r == self@.reading_fits(meter_id, mwh, signers@),
    {
        if self.paused {
            return true;
        }
        let i = match self.find_meter(&meter_id) {
            Some(i) => i,
            None => {
                return true;
            },
        };
        let cap = match self.meters[i].capacity_mw.checked_mul(24) {
            Some(c) => c,
            None => {
                return false;
            },
        };
        if mwh > cap || (signers.len() as u64) < (self.threshold_n as u64) || self.check_signers(signers).is_err() {
            return true;
        }
        let ghost s0 = self@;
        proof {
            lemma_signers_registered(s0, signers@);
        }
        let per = self.reward_per_reading;
        let num = signers.len() as i128;
        let total = match per.checked_mul(num) {
            Some(t) => t,
            None => {
                return false;
            },
        };
        if !(self.reward_pool >= total && num > 0) {
            return true;
        }
        if self.reward_pool.checked_sub(total).is_none() {
            return false;
        }
        let mut rewards: Vec<i128> = Vec::new();
        let mut j: usize = 0;
        while j < self.oracles.len()
            invariant
                0 <= j <= self.oracles@.len(),
                rewards@.len() == j,
                forall|m: int| 0 <= m < j ==> rewards@[m] == self.oracles@[m].rewards,
            decreases self.oracles@.len() - j,
        {
            rewards.push(self.oracles[j].rewards);
            j = j + 1;
        }
        let mut k: usize = 0;
        proof {
            assert(signers@.take(0) =~= Seq::<Bytes32>::empty());
            assert(same_keys(s0.oracles, s0.oracles));
        }
        while k < signers.len()
            invariant
                self.wf(),
                s0 == self@,
                s0.attested(meter_id, mwh, signers@),
                s0.capacity_fits(meter_id),
                s0.pays(signers@.len()),
                per == s0.reward_per_reading,
                0 <= k <= signers@.len(),
                forall|q: int| 0 <= q < signers@.len() ==> registered(s0.oracles, #[trigger] signers@[q]),
                same_keys(s0.oracles, credit(s0.oracles, signers@.take(k as int), per)),
                rewards@.len() == s0.oracles.len(),
                forall|m: int| 0 <= m < rewards@.len() ==> rewards@[m] == credit(s0.oracles, signers@.take(k as int), per)[m].rewards,
                forall|q: int| 0 <= q < k ==> {
                    let prev = #[trigger] credit(s0.oracles, signers@.take(q), per);
                    i128::MIN <= prev[node_at(prev, signers@[q])].rewards + per <= i128::MAX
                },
            decreases signers@.len() - k,
        {
            let pk = signers[k];
            let ghost prev = credit(s0.oracles, signers@.take(k as int), per);
            proof {
                lemma_same_keys(s0.oracles, prev);
                assert(registered(s0.oracles, signers@[k as int]));
                assert(signers@.take(k + 1).drop_last() =~= signers@.take(k as int));
                assert(signers@.take(k + 1).last() == pk);
            }
            let i = match find_oracle(&self.oracles, &pk) {
                Some(i) => i,
                None => {
                    return false;
                },
            };
            proof {
                assert(node_at(prev, pk) == i);
            }
            match rewards[i].checked_add(per) {
                Some(v) => {
                    rewards.set(i, v);
                    proof {
                        let next = credit(s0.oracles, signers@.take(k + 1), per);
                        assert(next == prev.update(i as int, credited(prev[i as int], per)));
                        assert(same_keys(s0.oracles, next));
                        assert forall|q: int| 0 <= q < k + 1 implies {
                            let p2 = #[trigger] credit(s0.oracles, signers@.take(q), per);
                            i128::MIN <= p2[node_at(p2, signers@[q])].rewards + per <= i128::MAX
                        } by {
                            if q == k {
                                assert(signers@[q] == pk);
                            }
                        }
                    }
                },
                None => {
                    proof {
                        assert(!credit_fits(s0.oracles, signers@, per)) by {
                            assert(signers@[k as int] == pk);
                        }
                    }
                    return false;
                },
            }
            k = k + 1;
        }
        proof {
            assert(signers@.take(signers@.len() as int) =~= signers@);
        }
        true
    }

    /// Validates a reading of `mwh` from meter `meter_id` at
    /// `generation_timestamp`, attested by `signers` and minted as
    /// `token_id`, and records it under its id, the SHA-256 digest of its
    /// signed bytes, which it returns. Fails as `check_reading` does for
    /// that id. Signature validity is outside this function: the caller
    /// has each attestor's Ed25519 signature over the digest verified by
    /// the ledger host, which aborts on a bad one.
    pub fn submit_reading(
        &mut self,
        env: &Env,
        meter_id: Bytes32,
        mwh: u64,
        generation_timestamp: u64,
        signers: Vec<Bytes32>,
        token_id: u64,
    ) -> (r: Result<Bytes32, OracleError>)
        requires
            old(self).wf(),
            signers@.len() <= u32::MAX,
            old(self)@.reading_fits(meter_id, mwh, signers@),
        ensures
            final(self).wf(),
            r matches Ok(h) ==> h@ == sha256_digest(reading_message_of(meter_id, mwh, generation_timestamp))
                && old(self)@.reading_check(meter_id, mwh, signers@, h) is Ok
                && final(self)@ == old(self)@.recorded(meter_id, mwh, generation_timestamp, signers, h, token_id),
            r matches Err(e) ==> final(self)@ == old(self)@ && exists|h: Bytes32|
                h@ == sha256_digest(reading_message_of(meter_id, mwh, generation_timestamp))
                && #[trigger] old(self)@.reading_check(meter_id, mwh, signers@, h) == Err::<(), OracleError>(e),
            forall|h: Bytes32|
                h@ == sha256_digest(reading_message_of(meter_id, mwh, generation_timestamp))
                && #[trigger] old(self)@.reading_check(meter_id, mwh, signers@, h) is Ok ==> r is Ok,
    {
        let h = reading_hash(env, &meter_id, mwh, generation_timestamp);
        let ghost s0 = self@;
        match self.record_reading(meter_id, mwh, generation_timestamp, signers, h, token_id) {
            Ok(_) => Ok(h),
            Err(e) => {
                proof {
                    assert forall|h2: Bytes32|
                        h2@ == sha256_digest(reading_message_of(meter_id, mwh, generation_timestamp))
                        && #[trigger] s0.reading_check(meter_id, mwh, signers@, h2) is Ok implies false by {
                        assert(h2 =~= h);
                    }
                }
                Err(e)
            },
        }
    }

    /// Records reading `reading_hash` of `mwh` from meter `meter_id` at
    /// `generation_timestamp`, attested by `signers` and minted as
    /// `token_id`, after the same checks as `check_reading`. When the pool
    /// holds the reward of every attestation, it pays it: each signer
    /// earns the reward per reading and one point of reputation. The
    /// attestors' signatures are taken as already verified by the caller.
    pub fn record_reading(
        &mut self,
        meter_id: Bytes32,
        mwh: u64,
        generation_timestamp: u64,
        signers: Vec<Bytes32>,
        reading_hash: Bytes32,
        token_id: u64,
    ) -> (r: Result<(), OracleError>)
        requires
            old(self).wf(),
            signers@.len() <= u32::MAX,
            old(self)@.reading_fits(meter_id, mwh, signers@),
        ensures
            final(self).wf(),
            r matches Err(e) ==> old(self)@.reading_check(meter_id, mwh, signers@, reading_hash) == Err::<(), OracleError>(e)
                && final(self)@ == old(self)@,
            r is Ok ==> old(self)@.reading_check(meter_id, mwh, signers@, reading_hash) is Ok,
            old(self)@.reading_check(meter_id, mwh, signers@, reading_hash) is Ok ==> r is Ok && final(self)@
                == old(self)@.recorded(meter_id, mwh, generation_timestamp, signers, reading_hash, token_id),
    {
        match self.check_reading(meter_id, mwh, &signers, reading_hash) {
            Err(e) => {
                return Err(e);
            },
            Ok(_) => {},
        }
        let ghost s0 = self@;
        proof {
            lemma_signers_registered(s0, signers@);
        }
        let per = self.reward_per_reading;
        let num = signers.len() as i128;
        let total = per * num;
        if self.reward_pool >= total && num > 0 {
            self.reward_pool = self.reward_pool - total;
            let mut k: usize = 0;
            proof {
                assert(signers@.take(0) =~= Seq::<Bytes32>::empty());
            }
            while k < signers.len()
                invariant
                    self.wf(),
                    0 <= k <= signers@.len(),
                    s0.consistent(),
                    credit_fits(s0.oracles, signers@, per),
                    forall|j: int| 0 <= j < signers@.len() ==> registered(s0.oracles, #[trigger] signers@[j]),
                    self@.oracles == credit(s0.oracles, signers@.take(k as int), per),
                    same_keys(s0.oracles, self@.oracles),
                    self@ == (OracleState { oracles: self@.oracles, ..s0 }).with_pool((s0.reward_pool - total) as i128),
                decreases signers@.len() - k,
            {
                let pk = signers[k];
                proof {
                    lemma_same_keys(s0.oracles, self@.oracles);
                    assert(registered(s0.oracles, signers@[k as int]));
                    assert(signers@.take(k + 1).drop_last() =~= signers@.take(k as int));
                    assert(signers@.take(k + 1).last() == pk);
                }
                let i = match find_oracle(&self.oracles, &pk) {
                    Some(i) => i,
                    None => {
                        return Err(OracleError::InvalidSignature);
                    },
                };
                let ghost s1 = self@;
                let mut n = self.oracles.remove(i);
                n.rewards = n.rewards + per;
                n.reputation = n.reputation.saturating_add(1);
                self.oracles.insert(i, n);
                proof {
                    lemma_replace_node(s1, i as int, n);
                    assert(self.oracles@ =~= s1.oracles.update(i as int, n));
                    assert(same_keys(s1.oracles, self@.oracles));
                }
                k = k + 1;
            }
            proof {
                assert(signers@.take(signers@.len() as int) =~= signers@);
            }
        }
        let ghost s2 = self@;
        let count = signers.len() as u32;
        self.readings.push(
            ReadingRecord {
                reading_hash,
                meter_id,
                mwh,
                timestamp: generation_timestamp,
                oracle_count: count,
                threshold_met: true,
                disputed: false,
                resolved: false,
                token_id: Some(token_id),
                oracles: signers,
            },
        );
        proof {
            assert forall|i: int, j: int| 0 <= i < j < self@.readings.len() implies (#[trigger] self@.readings[i]).reading_hash != (#[trigger] self@.readings[j]).reading_hash by {
                if j == s2.readings.len() {
                    assert(self@.readings[i] == s0.readings[i]);
                }
            }
            assert forall|pk: Bytes32| #[trigger] self@.revoked.contains(pk) implies self@.has_oracle(pk) && !self@.oracle(pk).active by {
                assert(s2.revoked.contains(pk));
            }
            assert forall|i: int, k: int| 0 <= i < self@.readings.len() && 0 <= k < self@.readings[i].oracles@.len() implies registered(self@.oracles, #[trigger] self@.readings[i].oracles@[k]) by {
                lemma_same_keys(s0.oracles, s2.oracles);
                if i == s2.readings.len() {
                    assert(registered(s0.oracles, signers@[k]));
                } else {
                    assert(registered(s0.oracles, s0.readings[i].oracles@[k]));
                }
            }
        }
        Ok(())
    }

    /// Flags reading `reading_hash` as disputed. Fails with
    /// `OracleNotFound` for an unknown reading and `AlreadyResolved` for a
    /// resolved one.
    pub fn dispute(&mut self, reading_hash: Bytes32) -> (r: Result<(), OracleError>)
        requires
            old(self).wf(),
        ensures
            final(self).wf(),
            !old(self)@.has_reading(reading_hash) ==> r == Err::<(), OracleError>(OracleError::OracleNotFound)
                && final(self)@ == old(self)@,
            old(self)@.has_reading(reading_hash) && old(self)@.reading(reading_hash).resolved ==> r == Err::<(), OracleError>(
                OracleError::AlreadyResolved,
            ) && final(self)@ == old(self)@,
            old(self)@.has_reading(reading_hash) && !old(self)@.reading(reading_hash).resolved ==> r == Ok::<(), OracleError>(())
                && final(self)@ == (OracleState {
                readings: old(self)@.readings.update(
                    old(self)@.reading_at(reading_hash),
                    ReadingRecord { disputed: true, ..old(self)@.reading(reading_hash) },
                ),
                ..old(self)@
            }),
    {
        let i = match self.find_reading(&reading_hash) {
            Some(i) => i,
            None => {
                return Err(OracleError::OracleNotFound);
            },
        };
        if self.readings[i].resolved {
            return Err(OracleError::AlreadyResolved);
        }
        let ghost s0 = self@;
        let mut rec = self.readings.remove(i);
        rec.disputed = true;
        self.readings.insert(i, rec);
        proof {
            assert(self.readings@ =~= s0.readings.update(i as int, rec));
            assert forall|a: int, b: int| 0 <= a < b < self@.readings.len() implies (#[trigger] self@.readings[a]).reading_hash != (#[trigger] self@.readings[b]).reading_hash by {
                assert(s0.readings[a].reading_hash != s0.readings[b].reading_hash);
            }
            assert forall|a: int, k: int| 0 <= a < self@.readings.len() && 0 <= k < self@.readings[a].oracles@.len() implies registered(self@.oracles, #[trigger] self@.readings[a].oracles@[k]) by {
                assert(registered(s0.oracles, s0.readings[a].oracles@[k]));
            }
        }
        Ok(())
    }

    /// Resolves reading `reading_hash`. When `outcome` finds it fraudulent,
    /// each of its attestors in turn loses its positive stake, is
    /// deactivated and loses ten points of reputation, and the slashed
    /// stakes are returned in order; when honest, each gains five points.
    /// Fails with `OracleNotFound` for an unknown reading and
    /// `AlreadyResolved` for a resolved one.
    pub fn resolve_dispute(&mut self, reading_hash: Bytes32, outcome: bool) -> (r: Result<Vec<i128>, OracleError>)
        requires
            old(self).wf(),
        ensures
            final(self).wf(),
            !old(self)@.has_reading(reading_hash) ==> r is Err && r->Err_0 == OracleError::OracleNotFound
                && final(self)@ == old(self)@,
            old(self)@.has_reading(reading_hash) && old(self)@.reading(reading_hash).resolved ==> r is Err && r->Err_0
                == OracleError::AlreadyResolved && final(self)@ == old(self)@,
            old(self)@.has_reading(reading_hash) && !old(self)@.reading(reading_hash).resolved ==> r is Ok && ({
                let pks = old(self)@.reading(reading_hash).oracles@;
                &&& r->Ok_0@ == if outcome {
                    Seq::<i128>::empty()
                } else {
                    slashes(old(self)@.oracles, pks)
                }
                &&& final(self)@ == (OracleState {
                    readings: old(self)@.readings.update(
                        old(self)@.reading_at(reading_hash),
                        ReadingRecord { resolved: true, ..old(self)@.reading(reading_hash) },
                    ),
                    oracles: judge(old(self)@.oracles, pks, outcome),
                    ..old(self)@
                })
            }),
    {
        let ri = match self.find_reading(&reading_hash) {
            Some(i) => i,
            None => {
                return Err(OracleError::OracleNotFound);
            },
        };
        if self.readings[ri].resolved {
            return Err(OracleError::AlreadyResolved);
        }
        let ghost s0 = self@;
        let mut rec = self.readings.remove(ri);
        rec.resolved = true;
        let mut pks: Vec<Bytes32> = Vec::new();
        let mut c: usize = 0;
        while c < rec.oracles.len()
            invariant
                0 <= c <= rec.oracles@.len(),
                pks@ == rec.oracles@.take(c as int),
            decreases rec.oracles@.len() - c,
        {
            pks.push(rec.oracles[c]);
            c = c + 1;
            proof {
                assert(pks@ =~= rec.oracles@.take(c as int));
            }
        }
        proof {
            assert(pks@ =~= rec.oracles@);
        }
        self.readings.insert(ri, rec);
        proof {
            assert(self.readings@ =~= s0.readings.update(ri as int, rec));
            assert forall|a: int, b: int| 0 <= a < b < self@.readings.len() implies (#[trigger] self@.readings[a]).reading_hash != (#[trigger] self@.readings[b]).reading_hash by {
                assert(s0.readings[a].reading_hash != s0.readings[b].reading_hash);
            }
            assert forall|a: int, k: int| 0 <= a < self@.readings.len() && 0 <= k < self@.readings[a].oracles@.len() implies registered(self@.oracles, #[trigger] self@.readings[a].oracles@[k]) by {
                assert(registered(s0.oracles, s0.readings[a].oracles@[k]));
            }
            assert forall|k: int| 0 <= k < pks@.len() implies registered(s0.oracles, #[trigger] pks@[k]) by {
                assert(registered(s0.oracles, s0.readings[ri as int].oracles@[k]));
            }
        }
        let ghost s1 = self@;
        let mut slashed: Vec<i128> = Vec::new();
        let mut k: usize = 0;
        proof {
            assert(pks@.take(0) =~= Seq::<Bytes32>::empty());
        }
        while k < pks.len()
            invariant
                self.wf(),
                0 <= k <= pks@.len(),
                s0.consistent(),
                forall|j: int| 0 <= j < pks@.len() ==> registered(s0.oracles, #[trigger] pks@[j]),
                self@.oracles == judge(s0.oracles, pks@.take(k as int), outcome),
                slashed@ == if outcome {
                    Seq::<i128>::empty()
                } else {
                    slashes(s0.oracles, pks@.take(k as int))
                },
                same_keys(s0.oracles, self@.oracles),
                self@ == (OracleState { oracles: self@.oracles, ..s1 }),
            decreases pks@.len() - k,
        {
            let pk = pks[k];
            proof {
                lemma_same_keys(s0.oracles, self@.oracles);
                assert(registered(s0.oracles, pks@[k as int]));
                assert(pks@.take(k + 1).drop_last() =~= pks@.take(k as int));
                assert(pks@.take(k + 1).last() == pk);
            }
            let i = match find_oracle(&self.oracles, &pk) {
                Some(i) => i,
                None => {
                    return Err(OracleError::OracleNotFound);
                },
            };
            let ghost s2 = self@;
            let mut n = self.oracles.remove(i);
            if !outcome {
                if n.stake > 0 {
                    slashed.push(n.stake);
                    n.stake = 0;
                }
                n.active = false;
                n.reputation = n.reputation.saturating_sub(10);
            } else {
                n.reputation = n.reputation.saturating_add(5);
            }
            self.oracles.insert(i, n);
            proof {
                lemma_replace_node(s2, i as int, n);
                assert(self.oracles@ =~= s2.oracles.update(i as int, n));
                assert(same_keys(s2.oracles, self@.oracles));
            }
            k = k + 1;
        }
        proof {
            assert(pks@.take(pks@.len() as int) =~= pks@);
        }
        Ok(slashed)
    }

    /// Number of registered attestors.
    pub fn oracle_count(&self) -> (r: u32)
        requires
            self.wf(),
        ensures
            r == self@.oracles.len(),
    {
        self.oracles.len() as u32
    }

    /// Attestor `pubkey`; fails with `OracleNotFound`.
    pub fn get_oracle(&self, pubkey: Bytes32) -> (r: Result<OracleNode, OracleError>)
        requires
            self.wf(),
        ensures
            !self@.has_oracle(pubkey) ==> r == Err::<OracleNode, OracleError>(OracleError::OracleNotFound),
            self@.has_oracle(pubkey) ==> (r matches Ok(n) && n.same_content(self@.oracle(pubkey))),
    {
        match find_oracle(&self.oracles, &pubkey) {
            Some(i) => Ok(self.oracles[i].duplicate()),
            None => Err(OracleError::OracleNotFound),
        }
    }
}

} // verus!


verus! {

/// Number of times `pk` occurs in `s`.
pub open spec fn occurrences(s: Seq<Bytes32>, pk: Bytes32) -> nat
    decreases s.len(),
{
    if s.len() == 0 {
        0
    } else {
        occurrences(s.drop_last(), pk) + if s.last() == pk {
            1nat
        } else {
            0nat
        }
    }
}

/// A reading passes its checks only when the handler is running, the
/// meter is bound, the energy is within a day of the meter's capacity,
/// the signers reach the threshold, the reading is new, and every signer
/// is a registered, active attestor whose stake covers the minimum bond.
pub proof fn law_accepted_reading_is_attested(s: OracleState, meter_id: Bytes32, mwh: u64, signers: Seq<Bytes32>, h: Bytes32)
    requires
        s.reading_check(meter_id, mwh, signers, h) is Ok,
    ensures
        !s.paused,
        s.has_meter(meter_id),
        mwh <= s.meter(meter_id).capacity_mw * 24,
        signers.len() >= s.threshold_n,
        !s.has_reading(h),
        forall|k: int| 0 <= k < signers.len() ==> s.has_oracle(#[trigger] signers[k]) && s.oracle(signers[k]).active
            && s.oracle(signers[k]).stake >= s.minimum_bond,
{
    lemma_signer_all(s, signers);
}

proof fn lemma_signer_all(s: OracleState, signers: Seq<Bytes32>)
    requires
        s.signer_check(signers) is Ok,
    ensures
        forall|k: int| 0 <= k < signers.len() ==> s.has_oracle(#[trigger] signers[k]) && s.oracle(signers[k]).active
            && s.oracle(signers[k]).stake >= s.minimum_bond,
    decreases signers.len(),
{
    if signers.len() > 0 {
        lemma_signer_all(s, signers.drop_last());
        assert forall|k: int| 0 <= k < signers.len() implies s.has_oracle(#[trigger] signers[k]) && s.oracle(signers[k]).active
            && s.oracle(signers[k]).stake >= s.minimum_bond by {
            if k < signers.len() - 1 {
                assert(signers.drop_last()[k] == signers[k]);
            }
        }
    }
}

/// Rewarding a reading credits every registered attestor with the reward
/// once for each of its signatures, and one point of reputation each
/// time up to the maximum; attestors that did not sign are untouched.
pub proof fn law_rewards_follow_signatures(s: Seq<OracleNode>, signers: Seq<Bytes32>, per: i128, pk: Bytes32)
    requires
        nodes_unique(s),
        registered(s, pk),
        forall|k: int| 0 <= k < signers.len() ==> registered(s, #[trigger] signers[k]),
        credit_fits(s, signers, per),
    ensures
        credit(s, signers, per)[node_at(s, pk)].rewards == s[node_at(s, pk)].rewards + per * occurrences(signers, pk),
        credit(s, signers, per)[node_at(s, pk)].stake == s[node_at(s, pk)].stake,
        credit(s, signers, per)[node_at(s, pk)].active == s[node_at(s, pk)].active,
    decreases signers.len(),
{
    if signers.len() > 0 {
        let sd = signers.drop_last();
        assert forall|k: int| 0 <= k < sd.len() implies registered(s, #[trigger] sd[k]) by {
            assert(sd[k] == signers[k]);
        }
        assert forall|k: int| 0 <= k < sd.len() implies {
            let prev = #[trigger] credit(s, sd.take(k), per);
            i128::MIN <= prev[node_at(prev, sd[k])].rewards + per <= i128::MAX
        } by {
            assert(sd.take(k) =~= signers.take(k));
            assert(sd[k] == signers[k]);
        }
        law_rewards_follow_signatures(s, sd, per, pk);
        lemma_credit_keys(s, sd, per);
        let prev = credit(s, sd, per);
        lemma_same_keys(s, prev);
        assert(registered(s, signers[signers.len() - 1]));
        let i = node_at(s, pk);
        let j = node_at(prev, signers.last());
        assert(node_at(prev, pk) == i);
        assert(sd =~= signers.take(signers.len() - 1));
        if signers.last() == pk {
            assert(j == i);
            assert(per * occurrences(signers, pk) == per * occurrences(sd, pk) + per) by (nonlinear_arith)
                requires occurrences(signers, pk) == occurrences(sd, pk) + 1;
        } else {
            assert(prev[j].pubkey == signers.last());
            assert(j != i);
        }
    }
}

/// The rewards owed to all attestors together.
pub open spec fn total_rewards(s: Seq<OracleNode>) -> int
    decreases s.len(),
{
    if s.len() == 0 {
        0
    } else {
        total_rewards(s.drop_last()) + s.last().rewards
    }
}

proof fn lemma_total_update(s: Seq<OracleNode>, i: int, n: OracleNode)
    requires
        0 <= i < s.len(),
    ensures
        total_rewards(s.update(i, n)) == total_rewards(s) - s[i].rewards + n.rewards,
    decreases s.len(),
{
    if i == s.len() - 1 {
        assert(s.update(i, n).drop_last() =~= s.drop_last());
    } else {
        assert(s.update(i, n).drop_last() =~= s.drop_last().update(i, n));
        lemma_total_update(s.drop_last(), i, n);
    }
}

proof fn lemma_credit_total(s: Seq<OracleNode>, signers: Seq<Bytes32>, per: i128)
    requires
        nodes_unique(s),
        forall|k: int| 0 <= k < signers.len() ==> registered(s, #[trigger] signers[k]),
        credit_fits(s, signers, per),
    ensures
        total_rewards(credit(s, signers, per)) == total_rewards(s) + per * signers.len(),
    decreases signers.len(),
{
    if signers.len() > 0 {
        let sd = signers.drop_last();
        let n = signers.len() - 1;
        assert forall|k: int| 0 <= k < sd.len() implies registered(s, #[trigger] sd[k]) by {
            assert(sd[k] == signers[k]);
        }
        assert forall|k: int| 0 <= k < sd.len() implies {
            let prev = #[trigger] credit(s, sd.take(k), per);
            i128::MIN <= prev[node_at(prev, sd[k])].rewards + per <= i128::MAX
        } by {
            assert(sd.take(k) =~= signers.take(k));
            assert(sd[k] == signers[k]);
        }
        lemma_credit_total(s, sd, per);
        lemma_credit_keys(s, sd, per);
        let prev = credit(s, sd, per);
        lemma_same_keys(s, prev);
        assert(registered(s, signers[n]));
        assert(sd =~= signers.take(n));
        let j = node_at(prev, signers.last());
        assert(registered(prev, signers.last()));
        assert(i128::MIN <= prev[j].rewards + per <= i128::MAX);
        lemma_total_update(prev, j, credited(prev[j], per));
        assert(per * signers.len() == per * sd.len() + per) by (nonlinear_arith)
            requires signers.len() == sd.len() + 1;
    }
}

/// Recording a reading moves rewards out of the pool to the attestors and
/// creates none: the pool plus all rewards owed stays the same.
pub proof fn law_reading_conserves_rewards(s: OracleState, meter_id: Bytes32, mwh: u64, ts: u64, signers: Vec<Bytes32>, h: Bytes32, token_id: u64)
    requires
        s.consistent(),
        s.reading_check(meter_id, mwh, signers@, h) is Ok,
        s.reading_fits(meter_id, mwh, signers@),
    ensures
        ({
            let s2 = s.recorded(meter_id, mwh, ts, signers, h, token_id);
            total_rewards(s2.oracles) + s2.reward_pool == total_rewards(s.oracles) + s.reward_pool
        }),
{
    if s.pays(signers@.len()) {
        lemma_signers_registered(s, signers@);
        lemma_credit_total(s.oracles, signers@, s.reward_per_reading);
    }
}

/// A reading is recorded at most once: once it is recorded, any reading
/// under the same id is refused, with `Unauthorized` when it gets past
/// the pause, meter, bound and threshold checks, so it mints nothing more.
pub proof fn law_reading_recorded_once(
    s: OracleState,
    meter_id: Bytes32,
    mwh: u64,
    ts: u64,
    signers: Vec<Bytes32>,
    h: Bytes32,
    token_id: u64,
    meter2: Bytes32,
    mwh2: u64,
    signers2: Seq<Bytes32>,
)
    requires
        s.consistent(),
        s.reading_check(meter_id, mwh, signers@, h) is Ok,
    ensures
        ({
            let s2 = s.recorded(meter_id, mwh, ts, signers, h, token_id);
            &&& s2.has_reading(h)
            &&& s2.reading_check(meter2, mwh2, signers2, h) is Err
            &&& (!s2.paused && s2.has_meter(meter2) && mwh2 <= s2.meter(meter2).capacity_mw * 24
                && signers2.len() >= s2.threshold_n) ==> s2.reading_check(meter2, mwh2, signers2, h)
                == Err::<(), OracleError>(OracleError::Unauthorized)
        }),
{
    let s2 = s.recorded(meter_id, mwh, ts, signers, h, token_id);
    assert(s2.readings[s.readings.len() as int].reading_hash == h);
}

/// A paid reading takes from the pool exactly the reward of every
/// attestation.
pub proof fn law_pool_pays_rewards(s: OracleState, meter_id: Bytes32, mwh: u64, ts: u64, signers: Vec<Bytes32>, h: Bytes32, token_id: u64)
    requires
        s.pays(signers@.len()),
        i128::MIN <= s.reward_pool - s.reward_per_reading * signers@.len() <= i128::MAX,
    ensures
        s.recorded(meter_id, mwh, ts, signers, h, token_id).reward_pool + s.reward_per_reading * signers@.len()
            == s.reward_pool,
{
}

/// A revoked attestor is out of service for good: revocation leaves it
/// inactive and on record as revoked, and in every consistent state a
/// revoked attestor is inactive, so a bond deposit, whatever its amount,
/// does not activate it again.
pub proof fn law_revoked_attestor_stays_inactive(s: OracleState, pk: Bytes32, amount: i128)
    requires
        s.consistent(),
        s.has_oracle(pk),
    ensures
        ({
            let s1 = OracleState {
                revoked: s.revoked.insert(pk),
                ..s.with_oracle(pk, OracleNode { active: false, ..s.oracle(pk) })
            };
            let n1 = s1.oracle(pk);
            &&& s1.has_oracle(pk)
            &&& !n1.active
            &&& s1.revoked.contains(pk)
        }),
        s.revoked.contains(pk) ==> !s.oracle(pk).active && !(s.oracle(pk).active || (s.oracle(pk).stake
            + amount >= s.minimum_bond && !s.revoked.contains(pk))),
{
    let i = node_at(s.oracles, pk);
    let o1 = s.oracles.update(i, OracleNode { active: false, ..s.oracle(pk) });
    assert(same_keys(s.oracles, o1));
    lemma_same_keys(s.oracles, o1);
}

/// A dispute is resolved at most once: once resolved, the reading is
/// still recorded and marked resolved, so resolving it again is refused.
pub proof fn law_dispute_resolves_once(s: OracleState, h: Bytes32, outcome: bool)
    requires
        s.consistent(),
        s.has_reading(h),
    ensures
        ({
            let s2 = OracleState {
                readings: s.readings.update(s.reading_at(h), ReadingRecord { resolved: true, ..s.reading(h) }),
                oracles: judge(s.oracles, s.reading(h).oracles@, outcome),
                ..s
            };
            &&& s2.has_reading(h)
            &&& s2.reading(h).resolved
        }),
{
    let i = s.reading_at(h);
    let s2 = OracleState {
        readings: s.readings.update(i, ReadingRecord { resolved: true, ..s.reading(h) }),
        oracles: judge(s.oracles, s.reading(h).oracles@, outcome),
        ..s
    };
    assert(s2.readings[i].reading_hash == h);
    let j = s2.reading_at(h);
    if j != i {
        assert(s.readings[j].reading_hash == h);
        if j < i {
            assert(s.readings[j].reading_hash != s.readings[i].reading_hash);
        } else {
            assert(s.readings[i].reading_hash != s.readings[j].reading_hash);
        }
    }
}

/// An attestor judged on a fraudulent reading ends up inactive with no
/// positive stake left.
pub proof fn law_fraud_slashes_attestors(s: Seq<OracleNode>, pks: Seq<Bytes32>, k: int)
    requires
        nodes_unique(s),
        forall|j: int| 0 <= j < pks.len() ==> registered(s, #[trigger] pks[j]),
        0 <= k < pks.len(),
    ensures
        !judge(s, pks, false)[node_at(s, pks[k])].active,
        judge(s, pks, false)[node_at(s, pks[k])].stake <= 0,
    decreases pks.len(),
{
    let pd = pks.drop_last();
    assert forall|j: int| 0 <= j < pd.len() implies registered(s, #[trigger] pd[j]) by {
        assert(pd[j] == pks[j]);
    }
    lemma_judge_keys(s, pd, false);
    let prev = judge(s, pd, false);
    lemma_same_keys(s, prev);
    assert(registered(s, pks[pks.len() - 1]));
    let last = node_at(prev, pks.last());
    assert(node_at(prev, pks[k]) == node_at(s, pks[k]));
    if k < pks.len() - 1 {
        assert(pd[k] == pks[k]);
        law_fraud_slashes_attestors(s, pd, k);
    }
}

} // verus!
