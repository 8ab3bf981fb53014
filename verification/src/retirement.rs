//! The retirement registry: retires certificates for a claim, issues a
//! receipt per retirement, and answers auditors.
//!
//! Receipts are numbered from 1; a receipt's id is its number as the last
//! eight bytes, big-endian, of 32 bytes otherwise zero. A token is retired
//! at most once, and the receipt it is recorded under lists it.
use vstd::prelude::*;
use crate::ids::{Address, Bytes32, bytes32_eq};
use crate::bytes::{copy_bytes, be_u64, lemma_be_u64_roundtrip, from_be_u64};

verus! {

/// Errors of the retirement registry.
#[derive(Clone, Copy, Debug, PartialEq, Eq, Structural)]
pub enum RetirementError {
    Unauthorized,
    AlreadyRetired,
    TokenNotFound,
    InvalidClaimData,
    ReceiptNotFound,
    NoTokensProvided,
    NotTokenOwner,
    RecTokenNotSet,
    DuplicateToken,
    ContractPaused,
    VerifierAlreadySet,
    VerifierNotFound,
}

impl RetirementError {
    /// The error's number on the ledger.
    pub open spec fn number(self) -> u32 {
        match self {
            RetirementError::Unauthorized => 1,
            RetirementError::AlreadyRetired => 2,
            RetirementError::TokenNotFound => 3,
            RetirementError::InvalidClaimData => 4,
            RetirementError::ReceiptNotFound => 5,
            RetirementError::NoTokensProvided => 6,
            RetirementError::NotTokenOwner => 7,
            RetirementError::RecTokenNotSet => 8,
            RetirementError::DuplicateToken => 9,
            RetirementError::ContractPaused => 10,
            RetirementError::VerifierAlreadySet => 11,
            RetirementError::VerifierNotFound => 12,
        }
    }

    /// The error's number on the ledger.
    pub fn code(&self) -> (r: u32)
        ensures
            r == self.number(),
    {
        match self {
            RetirementError::Unauthorized => 1,
            RetirementError::AlreadyRetired => 2,
            RetirementError::TokenNotFound => 3,
            RetirementError::InvalidClaimData => 4,
            RetirementError::ReceiptNotFound => 5,
            RetirementError::NoTokensProvided => 6,
            RetirementError::NotTokenOwner => 7,
            RetirementError::RecTokenNotSet => 8,
            RetirementError::DuplicateToken => 9,
            RetirementError::ContractPaused => 10,
            RetirementError::VerifierAlreadySet => 11,
            RetirementError::VerifierNotFound => 12,
        }
    }
}

/// What a retirement claims the energy for.
#[derive(Clone, Debug, PartialEq, Eq)]
pub struct ClaimData {
    pub period_start: u64,
    pub period_end: u64,
    pub purpose: Vec<u8>,
    pub jurisdiction: Vec<u8>,
}

impl ClaimData {
    /// Field-by-field equality, byte strings compared by content.
    pub open spec fn same_content(self, other: ClaimData) -> bool {
        &&& self.period_start == other.period_start
        &&& self.period_end == other.period_end
        &&& self.purpose@ == other.purpose@
        &&& self.jurisdiction@ == other.jurisdiction@
    }

    /// A copy of the claim.
    pub fn duplicate(&self) -> (r: ClaimData)
        ensures
            r.same_content(*self),
    {
        ClaimData {
            period_start: self.period_start,
            period_end: self.period_end,
            purpose: copy_bytes(&self.purpose),
            jurisdiction: copy_bytes(&self.jurisdiction),
        }
    }
}

/// The certificate of one retirement.
#[derive(Clone, Debug, PartialEq, Eq)]
pub struct RetirementReceipt {
    pub receipt_id: Bytes32,
    pub retirer: Address,
    pub token_ids: Vec<u64>,
    pub total_mwh: u64,
    pub claim: ClaimData,
    pub timestamp: u64,
    pub block_height: u64,
}

impl RetirementReceipt {
    /// Field-by-field equality, lists and byte strings compared by content.
    pub open spec fn same_content(self, other: RetirementReceipt) -> bool {
        &&& self.receipt_id == other.receipt_id
        &&& self.retirer == other.retirer
        &&& self.token_ids@ == other.token_ids@
        &&& self.total_mwh == other.total_mwh
        &&& self.claim.same_content(other.claim)
        &&& self.timestamp == other.timestamp
        &&& self.block_height == other.block_height
    }

    /// A copy of the receipt.
    pub fn duplicate(&self) -> (r: RetirementReceipt)
        ensures
            r.same_content(*self),
    {
        let ids = self.token_ids.clone();
        proof {
            assert(ids@ =~= self.token_ids@);
        }
        RetirementReceipt {
            receipt_id: self.receipt_id,
            retirer: self.retirer,
            token_ids: ids,
            total_mwh: self.total_mwh,
            claim: self.claim.duplicate(),
            timestamp: self.timestamp,
            block_height: self.block_height,
        }
    }
}

/// The id of receipt number `n`: 24 zero bytes, then `n` big-endian.
pub open spec fn receipt_id_of(n: u64) -> Seq<u8> {
    Seq::new(24, |i: int| 0u8) + be_u64(n)
}

/// The id of receipt number `counter`.
pub fn compute_receipt_id(counter: u64) -> (r: Bytes32)
    ensures
        r@ == receipt_id_of(counter),
{
    let r: Bytes32 = [
        0, 0, 0, 0, 0, 0, 0, 0, 0, 0, 0, 0, 0, 0, 0, 0, 0, 0, 0, 0, 0, 0, 0, 0,
        (counter >> 56u64) as u8,
        (counter >> 48u64) as u8,
        (counter >> 40u64) as u8,
        (counter >> 32u64) as u8,
        (counter >> 24u64) as u8,
        (counter >> 16u64) as u8,
        (counter >> 8u64) as u8,
        counter as u8,
    ];
    assert(r@ =~= receipt_id_of(counter));
    r
}

/// Different receipt numbers give different ids.
pub proof fn law_receipt_ids_distinct(a: u64, b: u64)
    requires
        a != b,
    ensures
        receipt_id_of(a) != receipt_id_of(b),
{
    lemma_be_u64_roundtrip(a);
    lemma_be_u64_roundtrip(b);
    if receipt_id_of(a) == receipt_id_of(b) {
        assert(receipt_id_of(a).subrange(24, 32) =~= be_u64(a));
        assert(receipt_id_of(b).subrange(24, 32) =~= be_u64(b));
    }
}

/// Where a retired token is recorded.
#[derive(Clone, Copy, Debug, PartialEq, Eq)]
pub struct RetiredToken {
    pub token_id: u64,
    pub receipt_id: Bytes32,
}

/// Whether `ids[i]` occurs earlier in `ids`.
pub open spec fn first_dup(ids: Seq<u64>, i: int) -> bool {
    exists|j: int| 0 <= j < i && ids[j] == ids[i]
}

/// The registry's abstract state.
pub ghost struct RetirementState {
    pub admin: Address,
    pub rec_token: Option<Address>,
    pub usdc_token: Option<Address>,
    pub fee_vault: Option<Address>,
    pub retirement_fee: i128,
    pub paused: bool,
    pub verifiers: Set<Address>,
    pub receipts: Seq<RetirementReceipt>,
    pub retired: Map<u64, Bytes32>,
}

impl RetirementState {
    /// The checks a retirement makes before looking at the tokens.
    pub open spec fn retire_precheck(self, token_count: nat, claim: ClaimData) -> Result<(), RetirementError> {
        if self.paused {
            Err(RetirementError::ContractPaused)
        } else if token_count == 0 {
            Err(RetirementError::NoTokensProvided)
        } else if claim.period_start == 0 || claim.period_end == 0 || claim.period_end < claim.period_start {
            Err(RetirementError::InvalidClaimData)
        } else if self.rec_token is None {
            Err(RetirementError::RecTokenNotSet)
        } else {
            Ok(())
        }
    }

    /// The checks of token `i` that precede asking for its owner.
    pub open spec fn token_precheck(self, ids: Seq<u64>, i: int) -> Result<(), RetirementError> {
        if first_dup(ids, i) {
            Err(RetirementError::DuplicateToken)
        } else if self.retired.contains_key(ids[i]) {
            Err(RetirementError::AlreadyRetired)
        } else {
            Ok(())
        }
    }

    /// The checks of the first `n` tokens, in order, given their owners.
    pub open spec fn tokens_check(self, caller: Address, ids: Seq<u64>, owners: Seq<Address>, n: int) -> Result<(), RetirementError>
        decreases n,
    {
        if n <= 0 {
            Ok(())
        } else {
            match self.tokens_check(caller, ids, owners, n - 1) {
                Err(e) => Err(e),
                Ok(_) => match self.token_precheck(ids, n - 1) {
                    Err(e) => Err(e),
                    Ok(_) => if owners[n - 1] != caller {
                        Err(RetirementError::NotTokenOwner)
                    } else {
                        Ok(())
                    },
                },
            }
        }
    }

    /// All checks of a retirement of `ids` by `caller`, whose owners are
    /// `owners`.
    pub open spec fn retire_check(self, caller: Address, ids: Seq<u64>, claim: ClaimData, owners: Seq<Address>) -> Result<(), RetirementError> {
        match self.retire_precheck(ids.len(), claim) {
            Err(e) => Err(e),
            Ok(_) => self.tokens_check(caller, ids, owners, ids.len() as int),
        }
    }

    /// Whether the retirement fee is charged.
    pub open spec fn charges_fee(self) -> bool {
        self.retirement_fee > 0 && self.usdc_token is Some && self.fee_vault is Some
    }

    /// The state after `receipt` is issued: it is appended, and every token
    /// it lists is recorded under its id.
    pub open spec fn after_retire(self, receipt: RetirementReceipt) -> RetirementState {
        RetirementState {
            receipts: self.receipts.push(receipt),
            retired: self.retired.union_prefer_right(
                Map::new(|t: u64| receipt.token_ids@.contains(t), |t: u64| receipt.receipt_id),
            ),
            ..self
        }
    }

    /// The receipt with id `id`, when one was issued.
    pub open spec fn has_receipt(self, id: Bytes32) -> bool {
        exists|i: int| 0 <= i < self.receipts.len() && (#[trigger] self.receipts[i]).receipt_id == id
    }

    /// Position of receipt `id`.
    pub open spec fn receipt_at(self, id: Bytes32) -> int {
        choose|i: int| 0 <= i < self.receipts.len() && (#[trigger] self.receipts[i]).receipt_id == id
    }
}

/// The receipts of `wallet` whose claim period lies within
/// `[start, end]`, in order of issue.
pub open spec fn claims(receipts: Seq<RetirementReceipt>, wallet: Address, start: u64, end: u64) -> Seq<RetirementReceipt>
    decreases receipts.len(),
{
    if receipts.len() == 0 {
        seq![]
    } else {
        let r = receipts.last();
        claims(receipts.drop_last(), wallet, start, end) + if r.retirer == wallet && r.claim.period_start >= start
            && r.claim.period_end <= end {
            seq![r]
        } else {
            seq![]
        }
    }
}

/// The outcome of a retirement.
#[derive(Clone, Copy, Debug, PartialEq, Eq)]
pub struct Retirement {
    pub receipt_id: Bytes32,
    pub fee: Option<i128>,
}

/// The registry's state.
pub struct RetirementContract {
    admin: Address,
    rec_token: Option<Address>,
    usdc_token: Option<Address>,
    fee_vault: Option<Address>,
    retirement_fee: i128,
    paused: bool,
    verifiers: Vec<Address>,
    receipts: Vec<RetirementReceipt>,
    retired: Vec<RetiredToken>,
}

/// The receipt each recorded token is retired under.
pub open spec fn retired_map(s: Seq<RetiredToken>) -> Map<u64, Bytes32> {
    Map::new(
        |t: u64| exists|i: int| 0 <= i < s.len() && (#[trigger] s[i]).token_id == t,
        |t: u64| s[choose|i: int| 0 <= i < s.len() && (#[trigger] s[i]).token_id == t].receipt_id,
    )
}

impl View for RetirementContract {
    type V = RetirementState;

    closed spec fn view(&self) -> RetirementState {
        RetirementState {
            admin: self.admin,
            rec_token: self.rec_token,
            usdc_token: self.usdc_token,
            fee_vault: self.fee_vault,
            retirement_fee: self.retirement_fee,
            paused: self.paused,
            verifiers: self.verifiers@.to_set(),
            receipts: self.receipts@,
            retired: retired_map(self.retired@),
        }
    }
}

/// Default fee of a retirement.
pub const DEFAULT_RETIREMENT_FEE: i128 = 2_000_000;

/// Receipt `i` (from 0) carries the id of number `i + 1`.
pub open spec fn numbered(receipts: Seq<RetirementReceipt>) -> bool {
    &&& receipts.len() <= u64::MAX
    &&& forall|i: int| 0 <= i < receipts.len() ==> (#[trigger] receipts[i]).receipt_id@ == receipt_id_of((i + 1) as u64)
}

impl RetirementState {
    /// The registry's consistency, as seen in its abstract state: receipts
    /// are numbered in order, and every retired token is listed on the
    /// receipt it is recorded under.
    pub open spec fn consistent(self) -> bool {
        &&& self.retirement_fee >= 0
        &&& numbered(self.receipts)
        &&& forall|t: u64| #[trigger] self.retired.contains_key(t) ==> self.has_receipt(self.retired[t])
            && self.receipts[self.receipt_at(self.retired[t])].token_ids@.contains(t)
    }
}

} // verus!

verus! {

/// No token is recorded twice.
pub open spec fn tokens_unique(s: Seq<RetiredToken>) -> bool {
    forall|i: int, j: int| 0 <= i < j < s.len() ==> (#[trigger] s[i]).token_id != (#[trigger] s[j]).token_id
}

proof fn lemma_retired_map_at(s: Seq<RetiredToken>, i: int)
    requires
        tokens_unique(s),
        0 <= i < s.len(),
    ensures
        retired_map(s).contains_key(s[i].token_id),
        retired_map(s)[s[i].token_id] == s[i].receipt_id,
{
    let t = s[i].token_id;
    assert(exists|k: int| 0 <= k < s.len() && (#[trigger] s[k]).token_id == t);
    let j = choose|k: int| 0 <= k < s.len() && (#[trigger] s[k]).token_id == t;
    if j != i {
        if j < i {
            assert(s[j].token_id != s[i].token_id);
        } else {
            assert(s[i].token_id != s[j].token_id);
        }
    }
}

proof fn lemma_retired_map_push(s: Seq<RetiredToken>, e: RetiredToken)
    requires
        tokens_unique(s),
        !retired_map(s).contains_key(e.token_id),
    ensures
        tokens_unique(s.push(e)),
        retired_map(s.push(e)) == retired_map(s).insert(e.token_id, e.receipt_id),
{
    let s2 = s.push(e);
    assert forall|i: int, j: int| 0 <= i < j < s2.len() implies (#[trigger] s2[i]).token_id != (#[trigger] s2[j]).token_id by {
        if j == s.len() {
            if s[i].token_id == e.token_id {
                assert(retired_map(s).contains_key(e.token_id));
            }
        }
    }
    assert forall|t: u64| retired_map(s2).contains_key(t) == retired_map(s).insert(e.token_id, e.receipt_id).contains_key(t) by {
        if retired_map(s2).contains_key(t) {
            let k = choose|k: int| 0 <= k < s2.len() && (#[trigger] s2[k]).token_id == t;
            if k < s.len() {
                assert(s[k].token_id == t);
            }
        }
        if retired_map(s).contains_key(t) {
            let k = choose|k: int| 0 <= k < s.len() && (#[trigger] s[k]).token_id == t;
            assert(s2[k].token_id == t);
        }
        if t == e.token_id {
            assert(s2[s.len() as int].token_id == t);
        }
    }
    assert forall|t: u64| #[trigger] retired_map(s2).contains_key(t) implies retired_map(s2)[t] == retired_map(s).insert(e.token_id, e.receipt_id)[t] by {
        let k = choose|k: int| 0 <= k < s2.len() && (#[trigger] s2[k]).token_id == t;
        lemma_retired_map_at(s2, k);
        if k < s.len() {
            assert(s2[k] == s[k]);
            lemma_retired_map_at(s, k);
        }
    }
    assert(retired_map(s2) =~= retired_map(s).insert(e.token_id, e.receipt_id));
}

proof fn lemma_checked_tokens(st: RetirementState, caller: Address, ids: Seq<u64>, owners: Seq<Address>, n: int)
    requires
        0 <= n <= ids.len(),
        st.tokens_check(caller, ids, owners, n) is Ok,
    ensures
        forall|a: int, b: int| 0 <= a < b < n ==> ids[a] != ids[b],
        forall|a: int| 0 <= a < n ==> !st.retired.contains_key(#[trigger] ids[a]),
        forall|a: int| 0 <= a < n ==> #[trigger] owners[a] == caller,
    decreases n,
{
    if n > 0 {
        lemma_checked_tokens(st, caller, ids, owners, n - 1);
        assert(!first_dup(ids, n - 1));
        assert forall|a: int, b: int| 0 <= a < b < n implies ids[a] != ids[b] by {
            if b == n - 1 && ids[a] == ids[b] {
                assert(first_dup(ids, n - 1));
            }
        }
    }
}

/// A token that is already retired cannot be retired again: a retirement
/// that lists it is refused, whoever asks and whatever the claim.
pub proof fn law_retired_token_is_refused(
    st: RetirementState,
    caller: Address,
    ids: Seq<u64>,
    claim: ClaimData,
    owners: Seq<Address>,
    i: int,
)
    requires
        0 <= i < ids.len(),
        st.retired.contains_key(ids[i]),
    ensures
        st.retire_check(caller, ids, claim, owners) is Err,
{
    if st.retire_check(caller, ids, claim, owners) is Ok {
        lemma_checked_tokens(st, caller, ids, owners, ids.len() as int);
    }
}

/// Only the owner of every listed token can retire them: a retirement
/// that lists a token owned by someone else than the caller is refused,
/// whatever the claim.
pub proof fn law_foreign_token_is_refused(
    st: RetirementState,
    caller: Address,
    ids: Seq<u64>,
    claim: ClaimData,
    owners: Seq<Address>,
    i: int,
)
    requires
        0 <= i < ids.len(),
        owners[i] != caller,
    ensures
        st.retire_check(caller, ids, claim, owners) is Err,
{
    if st.retire_check(caller, ids, claim, owners) is Ok {
        lemma_checked_tokens(st, caller, ids, owners, ids.len() as int);
    }
}

/// A retirement that passes its checks records every token it lists under
/// the new receipt and leaves every earlier record as it was.
pub proof fn law_retirement_is_recorded(
    st: RetirementState,
    caller: Address,
    claim: ClaimData,
    owners: Seq<Address>,
    receipt: RetirementReceipt,
    t: u64,
)
    requires
        st.retire_check(caller, receipt.token_ids@, claim, owners) is Ok,
    ensures
        receipt.token_ids@.contains(t) ==> st.after_retire(receipt).retired.contains_key(t)
            && st.after_retire(receipt).retired[t] == receipt.receipt_id,
        st.retired.contains_key(t) ==> st.after_retire(receipt).retired.contains_key(t)
            && st.after_retire(receipt).retired[t] == st.retired[t],
        st.after_retire(receipt).receipts.last() == receipt,
{
    lemma_checked_tokens(st, caller, receipt.token_ids@, owners, receipt.token_ids@.len() as int);
    if st.retired.contains_key(t) && receipt.token_ids@.contains(t) {
        let a = choose|a: int| 0 <= a < receipt.token_ids@.len() && receipt.token_ids@[a] == t;
        assert(!st.retired.contains_key(receipt.token_ids@[a]));
    }
}

/// An auditor who looks up a retired token is pointed at a receipt that
/// exists and lists the token.
pub proof fn law_recorded_receipt_lists_token(st: RetirementState, t: u64)
    requires
        st.consistent(),
        st.retired.contains_key(t),
    ensures
        st.has_receipt(st.retired[t]),
        st.receipts[st.receipt_at(st.retired[t])].token_ids@.contains(t),
{
}

proof fn lemma_numbered_unique(receipts: Seq<RetirementReceipt>, i: int, j: int)
    requires
        numbered(receipts),
        0 <= i < receipts.len(),
        0 <= j < receipts.len(),
        receipts[i].receipt_id == receipts[j].receipt_id,
    ensures
        i == j,
{
    if i != j {
        assert(receipts[i].receipt_id@ == receipt_id_of((i + 1) as u64));
        assert(receipts[j].receipt_id@ == receipt_id_of((j + 1) as u64));
        law_receipt_ids_distinct((i + 1) as u64, (j + 1) as u64);
    }
}

proof fn lemma_valid_consistent(data: RetirementData)
    requires
        data.valid(),
    ensures
        data.state().consistent(),
{
    let st = data.state();
    assert forall|t: u64| #[trigger] st.retired.contains_key(t) implies st.has_receipt(st.retired[t])
        && st.receipts[st.receipt_at(st.retired[t])].token_ids@.contains(t) by {
        let k = choose|k: int| 0 <= k < data.retired@.len() && (#[trigger] data.retired@[k]).token_id == t;
        lemma_retired_map_at(data.retired@, k);
        let e = data.retired@[k];
        assert(listed(data.receipts@, e));
        let m = choose|m: int| 0 <= m < data.receipts@.len()
            && (#[trigger] data.receipts@[m]).receipt_id == e.receipt_id
            && data.receipts@[m].token_ids@.contains(e.token_id);
        lemma_receipt_at(st, m);
    }
}

proof fn lemma_receipt_at(st: RetirementState, i: int)
    requires
        numbered(st.receipts),
        0 <= i < st.receipts.len(),
    ensures
        st.has_receipt(st.receipts[i].receipt_id),
        st.receipt_at(st.receipts[i].receipt_id) == i,
{
    let id = st.receipts[i].receipt_id;
    assert(st.receipts[i].receipt_id == id);
    let j = st.receipt_at(id);
    if j != i {
        assert(st.receipts[j].receipt_id@ == receipt_id_of((j + 1) as u64));
        assert(st.receipts[i].receipt_id@ == receipt_id_of((i + 1) as u64));
        law_receipt_ids_distinct((j + 1) as u64, (i + 1) as u64);
    }
}

/// A registry's state as plain values, for storing between calls.
#[derive(Clone, Debug, PartialEq, Eq)]
pub struct RetirementData {
    pub admin: Address,
    pub rec_token: Option<Address>,
    pub usdc_token: Option<Address>,
    pub fee_vault: Option<Address>,
    pub retirement_fee: i128,
    pub paused: bool,
    pub verifiers: Vec<Address>,
    pub receipts: Vec<RetirementReceipt>,
    pub retired: Vec<RetiredToken>,
}

impl RetirementData {
    /// The abstract state these values describe.
    pub open spec fn state(self) -> RetirementState {
        RetirementState {
            admin: self.admin,
            rec_token: self.rec_token,
            usdc_token: self.usdc_token,
            fee_vault: self.fee_vault,
            retirement_fee: self.retirement_fee,
            paused: self.paused,
            verifiers: self.verifiers@.to_set(),
            receipts: self.receipts@,
            retired: retired_map(self.retired@),
        }
    }

    /// Whether the values describe a consistent registry: no verifier or
    /// token listed twice, receipts numbered from 1, and every recorded
    /// token listed on a receipt with the id it is recorded under.
    pub open spec fn valid(self) -> bool {
        &&& self.retirement_fee >= 0
        &&& numbered(self.receipts@)
        &&& self.verifiers@.no_duplicates()
        &&& tokens_unique(self.retired@)
        &&& forall|k: int| 0 <= k < self.retired@.len() ==> listed(self.receipts@, #[trigger] self.retired@[k])
    }
}

/// Whether some receipt has the id `e` is recorded under and lists its token.
pub open spec fn listed(receipts: Seq<RetirementReceipt>, e: RetiredToken) -> bool {
    exists|i: int| 0 <= i < receipts.len() && (#[trigger] receipts[i]).receipt_id == e.receipt_id
        && receipts[i].token_ids@.contains(e.token_id)
}

/// Position of the receipt with id `id`, if any.
fn find_receipt(receipts: &Vec<RetirementReceipt>, id: &Bytes32) -> (r: Option<usize>)
    ensures
        r matches Some(i) ==> i < receipts@.len() && receipts@[i as int].receipt_id == *id,
        r is None ==> forall|j: int| 0 <= j < receipts@.len() ==> (#[trigger] receipts@[j]).receipt_id != *id,
{
    let mut i: usize = 0;
    while i < receipts.len()
        invariant
            0 <= i <= receipts@.len(),
            forall|j: int| 0 <= j < i ==> (#[trigger] receipts@[j]).receipt_id != *id,
        decreases receipts@.len() - i,
    {
        if bytes32_eq(&receipts[i].receipt_id, id) {
            return Some(i);
        }
        i = i + 1;
    }
    None
}

/// Whether `v` lists `t`.
fn lists(v: &Vec<u64>, t: u64) -> (r: bool)
    ensures
        r == v@.contains(t),
{
    let mut i: usize = 0;
    while i < v.len()
        invariant
            0 <= i <= v@.len(),
            forall|j: int| 0 <= j < i ==> v@[j] != t,
        decreases v@.len() - i,
    {
        if v[i] == t {
            assert(v@[i as int] == t);
            return true;
        }
        i = i + 1;
    }
    false
}

impl RetirementContract {
    /// The registry's internal consistency.
    pub closed spec fn wf(&self) -> bool {
        &&& self@.consistent()
        &&& tokens_unique(self.retired@)
        &&& self.verifiers@.no_duplicates()
    }

    /// A well-formed registry is consistent in its abstract state.
    pub proof fn lemma_wf_consistent(&self)
        requires
            self.wf(),
        ensures
            self@.consistent(),
    {
    }

    /// The registry rebuilt from stored values; `None` unless they are
    /// valid.
    pub fn restore(data: RetirementData) -> (r: Option<RetirementContract>)
        ensures
            r is Some <==> data.valid(),
            r matches Some(c) ==> c.wf() && c@ == data.state(),
    {
        let ghost d = data;
        if data.retirement_fee < 0 || data.receipts.len() as u128 > u64::MAX as u128 {
            return None;
        }
        let mut i: usize = 0;
        while i < data.receipts.len()
            invariant
                d == data,
                data.retirement_fee >= 0,
                0 <= i <= data.receipts@.len() <= u64::MAX,
                forall|j: int| 0 <= j < i ==> (#[trigger] data.receipts@[j]).receipt_id@ == receipt_id_of((j + 1) as u64),
            decreases data.receipts@.len() - i,
        {
            let id = compute_receipt_id(i as u64 + 1);
            if !bytes32_eq(&data.receipts[i].receipt_id, &id) {
                proof {
                    if data.receipts@[i as int].receipt_id@ == id@ {
                        assert(data.receipts@[i as int].receipt_id =~= id);
                    }
                }
                return None;
            }
            i = i + 1;
        }
        let mut a: usize = 0;
        while a < data.verifiers.len()
            invariant
                d == data,
                0 <= a <= data.verifiers@.len(),
                numbered(data.receipts@),
                data.retirement_fee >= 0,
                forall|x: int, y: int| 0 <= x < y < a ==> data.verifiers@[x] != data.verifiers@[y],
            decreases data.verifiers@.len() - a,
        {
            let mut b: usize = 0;
            while b < a
                invariant
                    d == data,
                    0 <= b <= a < data.verifiers@.len(),
                    forall|y: int| 0 <= y < b ==> data.verifiers@[y] != data.verifiers@[a as int],
                decreases a - b,
            {
                if data.verifiers[b].same(&data.verifiers[a]) {
                    return None;
                }
                b = b + 1;
            }
            a = a + 1;
        }
        proof {
            assert forall|x: int, y: int| 0 <= x < data.verifiers@.len() && 0 <= y < data.verifiers@.len() && x != y
                implies data.verifiers@[x] != data.verifiers@[y] by {
                if y < x {
                    assert(data.verifiers@[y] != data.verifiers@[x]);
                }
            }
        }
        let mut k: usize = 0;
        while k < data.retired.len()
            invariant
                d == data,
                numbered(data.receipts@),
                0 <= k <= data.retired@.len(),
                forall|x: int, y: int| 0 <= x < y < k ==> (#[trigger] data.retired@[x]).token_id != (#[trigger] data.retired@[y]).token_id,
                data.retirement_fee >= 0,
                data.verifiers@.no_duplicates(),
                forall|x: int| 0 <= x < k ==> listed(data.receipts@, #[trigger] data.retired@[x]),
            decreases data.retired@.len() - k,
        {
            let e = data.retired[k];
            let mut b: usize = 0;
            while b < k
                invariant
                    d == data,
                    0 <= b <= k < data.retired@.len(),
                    e == data.retired@[k as int],
                    forall|y: int| 0 <= y < b ==> (#[trigger] data.retired@[y]).token_id != e.token_id,
                decreases k - b,
            {
                if data.retired[b].token_id == e.token_id {
                    return None;
                }
                b = b + 1;
            }
            let m = match find_receipt(&data.receipts, &e.receipt_id) {
                Some(m) => m,
                None => {
                    return None;
                },
            };
            if !lists(&data.receipts[m].token_ids, e.token_id) {
                proof {
                    if listed(data.receipts@, e) {
                        let m2 = choose|m2: int| 0 <= m2 < data.receipts@.len() && (#[trigger] data.receipts@[m2]).receipt_id
                            == e.receipt_id && data.receipts@[m2].token_ids@.contains(e.token_id);
                        lemma_numbered_unique(data.receipts@, m as int, m2);
                    }
                }
                return None;
            }
            proof {
                assert(data.receipts@[m as int].receipt_id == e.receipt_id);
                assert(listed(data.receipts@, e));
            }
            k = k + 1;
        }
        proof {
            lemma_valid_consistent(data);
        }
        Some(RetirementContract {
            admin: data.admin,
            rec_token: data.rec_token,
            usdc_token: data.usdc_token,
            fee_vault: data.fee_vault,
            retirement_fee: data.retirement_fee,
            paused: data.paused,
            verifiers: data.verifiers,
            receipts: data.receipts,
            retired: data.retired,
        })
    }

    /// The registry's state as plain values.
    pub fn data(&self) -> (r: RetirementData)
        ensures
            r.admin == self@.admin,
            r.rec_token == self@.rec_token,
            r.usdc_token == self@.usdc_token,
            r.fee_vault == self@.fee_vault,
            r.retirement_fee == self@.retirement_fee,
            r.paused == self@.paused,
            r.verifiers@.to_set() == self@.verifiers,
            retired_map(r.retired@) == self@.retired,
            r.receipts@.len() == self@.receipts.len(),
            forall|i: int| 0 <= i < r.receipts@.len() ==> (#[trigger] r.receipts@[i]).same_content(self@.receipts[i]),
    {
        let verifiers = self.verifiers.clone();
        let retired = self.retired.clone();
        proof {
            assert(verifiers@ =~= self.verifiers@);
            assert(retired@ =~= self.retired@);
        }
        let mut receipts: Vec<RetirementReceipt> = Vec::new();
        let mut i: usize = 0;
        while i < self.receipts.len()
            invariant
                0 <= i <= self.receipts@.len(),
                receipts@.len() == i,
                forall|j: int| 0 <= j < i ==> (#[trigger] receipts@[j]).same_content(self.receipts@[j]),
            decreases self.receipts@.len() - i,
        {
            receipts.push(self.receipts[i].duplicate());
            i = i + 1;
        }
        RetirementData {
            admin: self.admin,
            rec_token: self.rec_token,
            usdc_token: self.usdc_token,
            fee_vault: self.fee_vault,
            retirement_fee: self.retirement_fee,
            paused: self.paused,
            verifiers,
            receipts,
            retired,
        }
    }

    /// An empty registry run by `admin`, charging the default fee.
    pub fn new(admin: Address) -> (r: RetirementContract)
        ensures
            r.wf(),
            r@ == (RetirementState {
                admin,
                rec_token: None,
                usdc_token: None,
                fee_vault: None,
                retirement_fee: DEFAULT_RETIREMENT_FEE,
                paused: false,
                verifiers: Set::empty(),
                receipts: seq![],
                retired: Map::empty(),
            }),
    {
        let r = RetirementContract {
            admin,
            rec_token: None,
            usdc_token: None,
            fee_vault: None,
            retirement_fee: DEFAULT_RETIREMENT_FEE,
            paused: false,
            verifiers: Vec::new(),
            receipts: Vec::new(),
            retired: Vec::new(),
        };
        assert(r@.verifiers =~= Set::<Address>::empty());
        assert(r@.retired =~= Map::<u64, Bytes32>::empty());
        r
    }

    /// The administrator.
    pub fn admin(&self) -> (r: Address)
        ensures
            r == self@.admin,
    {
        self.admin
    }

    /// Hands administration to `new_admin`.
    pub fn transfer_admin(&mut self, new_admin: Address)
        requires
            old(self).wf(),
        ensures
            final(self).wf(),
            final(self)@ == (RetirementState { admin: new_admin, ..old(self)@ }),
    {
        self.admin = new_admin;
    }

    /// Sets the certificate token contract.
    pub fn set_rec_token(&mut self, id: Address)
        requires
            old(self).wf(),
        ensures
            final(self).wf(),
            final(self)@ == (RetirementState { rec_token: Some(id), ..old(self)@ }),
    {
        self.rec_token = Some(id);
    }

    /// The certificate token contract, once set.
    pub fn rec_token(&self) -> (r: Option<Address>)
        ensures
            r == self@.rec_token,
    {
        self.rec_token
    }

    /// Sets the currency contract fees are paid in.
    pub fn set_usdc_token(&mut self, id: Address)
        requires
            old(self).wf(),
        ensures
            final(self).wf(),
            final(self)@ == (RetirementState { usdc_token: Some(id), ..old(self)@ }),
    {
        self.usdc_token = Some(id);
    }

    /// The currency contract, once set.
    pub fn usdc_token(&self) -> (r: Option<Address>)
        ensures
            r == self@.usdc_token,
    {
        self.usdc_token
    }

    /// Sets the account that receives retirement fees.
    pub fn set_fee_vault(&mut self, addr: Address)
        requires
            old(self).wf(),
        ensures
            final(self).wf(),
            final(self)@ == (RetirementState { fee_vault: Some(addr), ..old(self)@ }),
    {
        self.fee_vault = Some(addr);
    }

    /// The account that receives retirement fees, once set.
    pub fn fee_vault(&self) -> (r: Option<Address>)
        ensures
            r == self@.fee_vault,
    {
        self.fee_vault
    }

    /// Sets the fee of a retirement; fails with `InvalidClaimData` for a
    /// negative fee.
    pub fn set_retirement_fee(&mut self, fee: i128) -> (r: Result<(), RetirementError>)
        requires
            old(self).wf(),
        ensures
            final(self).wf(),
            fee < 0 ==> r == Err::<(), RetirementError>(RetirementError::InvalidClaimData) && final(self)@ == old(self)@,
            fee >= 0 ==> r == Ok::<(), RetirementError>(()) && final(self)@ == (RetirementState { retirement_fee: fee, ..old(self)@ }),
    {
        if fee < 0 {
            return Err(RetirementError::InvalidClaimData);
        }
        self.retirement_fee = fee;
        Ok(())
    }

    /// The fee of a retirement.
    pub fn retirement_fee(&self) -> (r: i128)
        ensures
            r == self@.retirement_fee,
    {
        self.retirement_fee
    }

    /// Halts retirements.
    pub fn pause(&mut self)
        requires
            old(self).wf(),
        ensures
            final(self).wf(),
            final(self)@ == (RetirementState { paused: true, ..old(self)@ }),
    {
        self.paused = true;
    }

    /// Lifts a halt.
    pub fn resume(&mut self)
        requires
            old(self).wf(),
        ensures
            final(self).wf(),
            final(self)@ == (RetirementState { paused: false, ..old(self)@ }),
    {
        self.paused = false;
    }

    /// Whether the registry is halted.
    pub fn paused(&self) -> (r: bool)
        ensures
            r == self@.paused,
    {
        self.paused
    }

    fn find_retired(&self, token_id: u64) -> (r: Option<usize>)
        requires
            self.wf(),
        ensures
            r matches Some(i) ==> i < self.retired@.len() && self.retired@[i as int].token_id == token_id
                && self@.retired.contains_key(token_id) && self@.retired[token_id] == self.retired@[i as int].receipt_id,
            r is None ==> !self@.retired.contains_key(token_id),
    {
        let mut i: usize = 0;
        while i < self.retired.len()
            invariant
                self.wf(),
                0 <= i <= self.retired@.len(),
                forall|j: int| 0 <= j < i ==> (#[trigger] self.retired@[j]).token_id != token_id,
            decreases self.retired@.len() - i,
        {
            if self.retired[i].token_id == token_id {
                proof {
                    lemma_retired_map_at(self.retired@, i as int);
                }
                return Some(i);
            }
            i = i + 1;
        }
        None
    }

    /// The receipt that token `token_id` was retired under, if any.
    pub fn verify_retirement(&self, token_id: u64) -> (r: Option<Bytes32>)
        requires
            self.wf(),
        ensures
            r == if self@.retired.contains_key(token_id) {
                Some(self@.retired[token_id])
            } else {
                None::<Bytes32>
            },
    {
        match self.find_retired(token_id) {
            Some(i) => Some(self.retired[i].receipt_id),
            None => None,
        }
    }

    /// The checks a retirement makes before looking at the tokens.
    pub fn retire_precheck(&self, token_count: usize, claim: &ClaimData) -> (r: Result<(), RetirementError>)
        ensures
            r == self@.retire_precheck(token_count as nat, *claim),
    {
        if self.paused {
            return Err(RetirementError::ContractPaused);
        }
        if token_count == 0 {
            return Err(RetirementError::NoTokensProvided);
        }
        if claim.period_start == 0 || claim.period_end == 0 || claim.period_end < claim.period_start {
            return Err(RetirementError::InvalidClaimData);
        }
        if self.rec_token.is_none() {
            return Err(RetirementError::RecTokenNotSet);
        }
        Ok(())
    }

    /// The checks of token `i` of `token_ids` that precede asking for its
    /// owner: it occurs for the first time and is not retired yet.
    pub fn token_precheck(&self, token_ids: &Vec<u64>, i: usize) -> (r: Result<(), RetirementError>)
        requires
            self.wf(),
            i < token_ids@.len(),
        ensures
            r == self@.token_precheck(token_ids@, i as int),
    {
        let t = token_ids[i];
        let mut j: usize = 0;
        while j < i
            invariant
                0 <= j <= i < token_ids@.len(),
                t == token_ids@[i as int],
                forall|k: int| 0 <= k < j ==> token_ids@[k] != t,
            decreases i - j,
        {
            if token_ids[j] == t {
                return Err(RetirementError::DuplicateToken);
            }
            j = j + 1;
        }
        if self.find_retired(t).is_some() {
            return Err(RetirementError::AlreadyRetired);
        }
        Ok(())
    }

    /// Whether the owner that the token registry reports is the caller.
    pub fn owner_check(caller: &Address, owner: &Address) -> (r: Result<(), RetirementError>)
        ensures
            r == if *owner != *caller {
                Err::<(), RetirementError>(RetirementError::NotTokenOwner)
            } else {
                Ok(())
            },
    {
        if !owner.same(caller) {
            return Err(RetirementError::NotTokenOwner);
        }
        Ok(())
    }

    /// Retires `token_ids` for `caller` under `claim`, given the owner of
    /// each token as the token registry reports it, at time `now` and
    /// ledger height `block_height`. Issues the next receipt, listing the
    /// tokens and counting one megawatt-hour per token, and records every
    /// token under it. Returns the receipt's id and, when a fee is charged,
    /// the fee.
    pub fn retire(
        &mut self,
        caller: Address,
        token_ids: Vec<u64>,
        claim: ClaimData,
        owners: &Vec<Address>,
        now: u64,
        block_height: u64,
    ) -> (r: Result<Retirement, RetirementError>)
        requires
            old(self).wf(),
            owners@.len() == token_ids@.len(),
            old(self)@.receipts.len() < u64::MAX,
        ensures
            final(self).wf(),
            r matches Err(e) ==> old(self)@.retire_check(caller, token_ids@, claim, owners@) == Err::<(), RetirementError>(e)
                && final(self)@ == old(self)@,
            old(self)@.retire_check(caller, token_ids@, claim, owners@) is Err ==> r is Err,
            old(self)@.retire_check(caller, token_ids@, claim, owners@) is Ok ==> r is Ok && ({
                let id = r->Ok_0.receipt_id;
                &&& id@ == receipt_id_of((old(self)@.receipts.len() + 1) as u64)
                &&& r->Ok_0.fee == if old(self)@.charges_fee() {
                    Some(old(self)@.retirement_fee)
                } else {
                    None::<i128>
                }
                &&& final(self)@ == old(self)@.after_retire(
                    RetirementReceipt {
                        receipt_id: id,
                        retirer: caller,
                        token_ids,
                        total_mwh: token_ids@.len() as u64,
                        claim,
                        timestamp: now,
                        block_height,
                    },
                )
            }),
    {
        match self.retire_precheck(token_ids.len(), &claim) {
            Err(e) => {
                return Err(e);
            },
            Ok(_) => {},
        }
        let mut i: usize = 0;
        while i < token_ids.len()
            invariant
                self.wf(),
                self@ == old(self)@,
                0 <= i <= token_ids@.len(),
                owners@.len() == token_ids@.len(),
                self@.retire_precheck(token_ids@.len(), claim) is Ok,
                self@.tokens_check(caller, token_ids@, owners@, i as int) is Ok,
            decreases token_ids@.len() - i,
        {
            match self.token_precheck(&token_ids, i) {
                Err(e) => {
                    proof {
                        self.lemma_tokens_prefix(caller, token_ids@, owners@, i as int + 1);
                    }
                    return Err(e);
                },
                Ok(_) => {},
            }
            match Self::owner_check(&caller, &owners[i]) {
                Err(e) => {
                    proof {
                        self.lemma_tokens_prefix(caller, token_ids@, owners@, i as int + 1);
                    }
                    return Err(e);
                },
                Ok(_) => {},
            }
            i = i + 1;
        }
        let ghost s0 = self@;
        let ghost v0 = self.verifiers@;
        proof {
            lemma_checked_tokens(self@, caller, token_ids@, owners@, token_ids@.len() as int);
        }
        let counter = self.receipts.len() as u64 + 1;
        let receipt_id = compute_receipt_id(counter);
        let fee = if self.retirement_fee > 0 && self.usdc_token.is_some() && self.fee_vault.is_some() {
            Some(self.retirement_fee)
        } else {
            None
        };
        let mut k: usize = 0;
        let ghost r0 = self.retired@;
        while k < token_ids.len()
            invariant
                0 <= k <= token_ids@.len(),
                self@ == (RetirementState { retired: retired_map(self.retired@), ..s0 }),
                self.verifiers@ == v0,
                r0 == old(self).retired@,
                tokens_unique(self.retired@),
                forall|a: int, b: int| 0 <= a < b < token_ids@.len() ==> token_ids@[a] != token_ids@[b],
                forall|a: int| 0 <= a < token_ids@.len() ==> !retired_map(r0).contains_key(#[trigger] token_ids@[a]),
                retired_map(self.retired@) == retired_map(r0).union_prefer_right(
                    Map::new(|t: u64| token_ids@.take(k as int).contains(t), |t: u64| receipt_id),
                ),
            decreases token_ids@.len() - k,
        {
            let e = RetiredToken { token_id: token_ids[k], receipt_id };
            proof {
                let before = retired_map(self.retired@);
                if before.contains_key(e.token_id) {
                    assert(!retired_map(r0).contains_key(token_ids@[k as int]));
                    let a = choose|a: int| 0 <= a < token_ids@.take(k as int).len() && #[trigger] token_ids@.take(k as int)[a] == e.token_id;
                    assert(token_ids@[a] == token_ids@[k as int]);
                }
                lemma_retired_map_push(self.retired@, e);
            }
            self.retired.push(e);
            proof {
                assert(retired_map(self.retired@) =~= retired_map(r0).union_prefer_right(
                    Map::new(|t: u64| token_ids@.take(k + 1).contains(t), |t: u64| receipt_id),
                )) by {
                    assert forall|t: u64| token_ids@.take(k + 1).contains(t) == (token_ids@.take(k as int).contains(t) || t == token_ids@[k as int]) by {
                        if token_ids@.take(k + 1).contains(t) {
                            let a = choose|a: int| 0 <= a < token_ids@.take(k + 1).len() && #[trigger] token_ids@.take(k + 1)[a] == t;
                            if a < k {
                                assert(token_ids@.take(k as int)[a] == t);
                            }
                        }
                        if token_ids@.take(k as int).contains(t) {
                            let a = choose|a: int| 0 <= a < token_ids@.take(k as int).len() && #[trigger] token_ids@.take(k as int)[a] == t;
                            assert(token_ids@.take(k + 1)[a] == t);
                        }
                        if t == token_ids@[k as int] {
                            assert(token_ids@.take(k + 1)[k as int] == t);
                        }
                    }
                }
            }
            k = k + 1;
        }
        proof {
            assert(token_ids@.take(token_ids@.len() as int) =~= token_ids@);
        }
        let ghost ids = token_ids@;
        let total = token_ids.len() as u64;
        let receipt = RetirementReceipt {
            receipt_id,
            retirer: caller,
            token_ids,
            total_mwh: total,
            claim,
            timestamp: now,
            block_height,
        };
        self.receipts.push(receipt);
        proof {
            let s1 = self@;
            assert(s1.receipts[s0.receipts.len() as int] == receipt);
            assert forall|i: int| 0 <= i < s1.receipts.len() implies (#[trigger] s1.receipts[i]).receipt_id@ == receipt_id_of((i + 1) as u64) by {
                if i < s0.receipts.len() {
                    assert(s1.receipts[i] == s0.receipts[i]);
                }
            }
            assert(numbered(s1.receipts));
            assert forall|t: u64| #[trigger] s1.retired.contains_key(t) implies s1.has_receipt(s1.retired[t])
                && s1.receipts[s1.receipt_at(s1.retired[t])].token_ids@.contains(t) by {
                lemma_receipt_at(s1, s0.receipts.len() as int);
                if ids.contains(t) {
                    assert(s1.retired[t] == receipt_id);
                } else {
                    assert(s0.retired.contains_key(t));
                    let j = s0.receipt_at(s0.retired[t]);
                    assert(s1.receipts[j] == s0.receipts[j]);
                    lemma_receipt_at(s1, j);
                }
            }
        }
        Ok(Retirement { receipt_id, fee })
    }

    proof fn lemma_tokens_prefix(&self, caller: Address, ids: Seq<u64>, owners: Seq<Address>, n: int)
        requires
            0 <= n <= ids.len(),
            self@.tokens_check(caller, ids, owners, n) is Err,
        ensures
            self@.tokens_check(caller, ids, owners, ids.len() as int) == self@.tokens_check(caller, ids, owners, n),
        decreases ids.len() - n,
    {
        if n < ids.len() {
            self.lemma_tokens_prefix(caller, ids, owners, n + 1);
        }
    }

    /// Receipt `receipt_id`; fails with `ReceiptNotFound`.
    pub fn get_retirement_receipt(&self, receipt_id: Bytes32) -> (r: Result<RetirementReceipt, RetirementError>)
        requires
            self.wf(),
        ensures
            !self@.has_receipt(receipt_id) ==> r == Err::<RetirementReceipt, RetirementError>(RetirementError::ReceiptNotFound),
            self@.has_receipt(receipt_id) ==> (r matches Ok(x) && x.same_content(self@.receipts[self@.receipt_at(receipt_id)])),
    {
        let mut i: usize = 0;
        while i < self.receipts.len()
            invariant
                self.wf(),
                0 <= i <= self@.receipts.len(),
                forall|j: int| 0 <= j < i ==> (#[trigger] self@.receipts[j]).receipt_id != receipt_id,
            decreases self@.receipts.len() - i,
        {
            if bytes32_eq(&self.receipts[i].receipt_id, &receipt_id) {
                proof {
                    lemma_receipt_at(self@, i as int);
                }
                return Ok(self.receipts[i].duplicate());
            }
            i = i + 1;
        }
        Err(RetirementError::ReceiptNotFound)
    }

    /// The receipts of `wallet` whose claim period lies within
    /// `[period_start, period_end]`, in order of issue.
    pub fn prove_claim(&self, wallet: Address, period_start: u64, period_end: u64) -> (r: Vec<RetirementReceipt>)
        requires
            self.wf(),
        ensures
            r@.len() == claims(self@.receipts, wallet, period_start, period_end).len(),
            forall|k: int| 0 <= k < r@.len() ==> (#[trigger] r@[k]).same_content(claims(self@.receipts, wallet, period_start, period_end)[k]),
    {
        let mut r: Vec<RetirementReceipt> = Vec::new();
        let mut i: usize = 0;
        proof {
            assert(self@.receipts.take(0) =~= Seq::<RetirementReceipt>::empty());
        }
        while i < self.receipts.len()
            invariant
                0 <= i <= self@.receipts.len(),
                r@.len() == claims(self@.receipts.take(i as int), wallet, period_start, period_end).len(),
                forall|k: int| 0 <= k < r@.len() ==> (#[trigger] r@[k]).same_content(claims(self@.receipts.take(i as int), wallet, period_start, period_end)[k]),
            decreases self@.receipts.len() - i,
        {
            let ghost pre = self@.receipts.take(i as int);
            proof {
                assert(self@.receipts.take(i + 1).drop_last() =~= pre);
                assert(self@.receipts.take(i + 1).last() == self@.receipts[i as int]);
            }
            let rc = &self.receipts[i];
            if rc.retirer.same(&wallet) && rc.claim.period_start >= period_start && rc.claim.period_end <= period_end {
                r.push(rc.duplicate());
            }
            i = i + 1;
        }
        proof {
            assert(self@.receipts.take(self@.receipts.len() as int) =~= self@.receipts);
        }
        r
    }

    fn find_verifier(&self, v: &Address) -> (r: Option<usize>)
        ensures
            r matches Some(i) ==> i < self.verifiers@.len() && self.verifiers@[i as int] == *v,
            r is None ==> !self.verifiers@.contains(*v),
    {
        let mut i: usize = 0;
        while i < self.verifiers.len()
            invariant
                0 <= i <= self.verifiers@.len(),
                forall|j: int| 0 <= j < i ==> self.verifiers@[j] != *v,
            decreases self.verifiers@.len() - i,
        {
            if self.verifiers[i].same(v) {
                return Some(i);
            }
            i = i + 1;
        }
        None
    }

    /// Authorizes or deauthorizes `verifier`.
    pub fn set_verifier(&mut self, verifier: Address, authorized: bool)
        requires
            old(self).wf(),
        ensures
            final(self).wf(),
            final(self)@ == (RetirementState {
                verifiers: if authorized {
                    old(self)@.verifiers.insert(verifier)
                } else {
                    old(self)@.verifiers.remove(verifier)
                },
                ..old(self)@
            }),
    {
        let ghost v0 = self.verifiers@;
        match self.find_verifier(&verifier) {
            Some(i) => {
                if !authorized {
                    self.verifiers.remove(i);
                    proof {
                        assert forall|x: Address| self.verifiers@.contains(x) == v0.to_set().remove(verifier).contains(x) by {
                            if self.verifiers@.contains(x) {
                                let k = choose|k: int| 0 <= k < self.verifiers@.len() && self.verifiers@[k] == x;
                                let k0 = if k < i { k } else { k + 1 };
                                assert(v0[k0] == x);
                                assert(k0 != i);
                                assert(v0.contains(x));
                            }
                            if v0.contains(x) && x != verifier {
                                let k = choose|k: int| 0 <= k < v0.len() && v0[k] == x;
                                assert(k != i);
                                if k < i {
                                    assert(self.verifiers@[k] == x);
                                } else {
                                    assert(self.verifiers@[k - 1] == x);
                                }
                            }
                        }
                        assert(self@.verifiers =~= v0.to_set().remove(verifier));
                    }
                } else {
                    proof {
                        assert(v0.contains(verifier));
                        assert(self@.verifiers =~= v0.to_set().insert(verifier));
                    }
                }
            },
            None => {
                if authorized {
                    self.verifiers.push(verifier);
                    proof {
                        assert forall|x: Address| self.verifiers@.contains(x) == v0.to_set().insert(verifier).contains(x) by {
                            if v0.contains(x) {
                                let k = choose|k: int| 0 <= k < v0.len() && v0[k] == x;
                                assert(self.verifiers@[k] == x);
                            }
                            if self.verifiers@.contains(x) && x != verifier {
                                let k = choose|k: int| 0 <= k < self.verifiers@.len() && self.verifiers@[k] == x;
                                assert(v0[k] == x);
                            }
                            if x == verifier {
                                assert(self.verifiers@[v0.len() as int] == x);
                            }
                        }
                        assert(self@.verifiers =~= v0.to_set().insert(verifier));
                    }
                } else {
                    proof {
                        assert(self@.verifiers =~= v0.to_set().remove(verifier));
                    }
                }
            },
        }
    }

    /// Whether `verifier` is authorized.
    pub fn is_verifier(&self, verifier: Address) -> (r: bool)
        requires
            self.wf(),
        ensures
            r == self@.verifiers.contains(verifier),
    {
        self.find_verifier(&verifier).is_some()
    }
}

} // verus!
