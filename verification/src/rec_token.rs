//! The certificate token registry: one token per verified megawatt-hour.
//!
//! Tokens are numbered from 1 in order of minting. A token is `Active`
//! until it is burned, after which it stays recorded as `Retired` and can
//! no longer move. Balances and the total supply count active tokens.
use vstd::prelude::*;
use crate::ids::{Address, Bytes32, bytes32_eq};
use crate::bytes::copy_bytes;

verus! {

/// Errors of the token registry.
#[derive(Clone, Copy, Debug, PartialEq, Eq, Structural)]
pub enum RecTokenError {
    Unauthorized,
    RecAlreadyRetired,
    InsufficientBalance,
    TokenNotFound,
    DuplicateMint,
    ContractPaused,
}

impl RecTokenError {
    /// The error's number on the ledger.
    pub open spec fn number(self) -> u32 {
        match self {
            RecTokenError::Unauthorized => 1,
            RecTokenError::RecAlreadyRetired => 2,
            RecTokenError::InsufficientBalance => 3,
            RecTokenError::TokenNotFound => 4,
            RecTokenError::DuplicateMint => 5,
            RecTokenError::ContractPaused => 6,
        }
    }

    /// The error's number on the ledger.
    pub fn code(&self) -> (r: u32)
        ensures
            r == self.number(),
    {
        match self {
            RecTokenError::Unauthorized => 1,
            RecTokenError::RecAlreadyRetired => 2,
            RecTokenError::InsufficientBalance => 3,
            RecTokenError::TokenNotFound => 4,
            RecTokenError::DuplicateMint => 5,
            RecTokenError::ContractPaused => 6,
        }
    }
}

/// Generation technology of the certified energy.
#[derive(Clone, Copy, Debug, PartialEq, Eq, Structural)]
pub enum FuelType {
    Solar,
    Wind,
    Hydro,
    Other,
}

/// Lifecycle state of a certificate.
#[derive(Clone, Copy, Debug, PartialEq, Eq, Structural)]
pub enum RecState {
    Active,
    Retired,
}

/// Metadata of one certificate.
#[derive(Clone, Debug, PartialEq, Eq)]
pub struct RecMetadata {
    pub token_id: u64,
    pub asset_id: Bytes32,
    pub generation_timestamp: u64,
    pub fuel_type: FuelType,
    pub vintage_year: u32,
    pub metadata_uri: Vec<u8>,
    pub state: RecState,
    pub retired_at: Option<u64>,
    pub retirement_receipt: Option<Bytes32>,
}

impl RecMetadata {
    /// Field-by-field equality, byte strings compared by content.
    pub open spec fn same_content(self, other: RecMetadata) -> bool {
        &&& self.token_id == other.token_id
        &&& self.asset_id == other.asset_id
        &&& self.generation_timestamp == other.generation_timestamp
        &&& self.fuel_type == other.fuel_type
        &&& self.vintage_year == other.vintage_year
        &&& self.metadata_uri@ == other.metadata_uri@
        &&& self.state == other.state
        &&& self.retired_at == other.retired_at
        &&& self.retirement_receipt == other.retirement_receipt
    }

    /// A copy of the metadata.
    pub fn duplicate(&self) -> (r: RecMetadata)
        ensures
            r.same_content(*self),
    {
        RecMetadata {
            token_id: self.token_id,
            asset_id: self.asset_id,
            generation_timestamp: self.generation_timestamp,
            fuel_type: self.fuel_type,
            vintage_year: self.vintage_year,
            metadata_uri: copy_bytes(&self.metadata_uri),
            state: self.state,
            retired_at: self.retired_at,
            retirement_receipt: self.retirement_receipt,
        }
    }
}

/// A certificate with its owner.
#[derive(Clone, Debug, PartialEq, Eq)]
pub struct RecTokenValue {
    pub owner: Address,
    pub metadata: RecMetadata,
}

/// Whether `t` is an active token of `o`.
pub open spec fn active_of(t: RecTokenValue, o: Address) -> bool {
    t.owner == o && t.metadata.state == RecState::Active
}

/// Number of active tokens of `o` in `s`.
pub open spec fn active_owned(s: Seq<RecTokenValue>, o: Address) -> nat
    decreases s.len(),
{
    if s.len() == 0 {
        0
    } else {
        active_owned(s.drop_last(), o) + if active_of(s.last(), o) {
            1nat
        } else {
            0nat
        }
    }
}

/// Number of active tokens in `s`.
pub open spec fn active_count(s: Seq<RecTokenValue>) -> nat
    decreases s.len(),
{
    if s.len() == 0 {
        0
    } else {
        active_count(s.drop_last()) + if s.last().metadata.state == RecState::Active {
            1nat
        } else {
            0nat
        }
    }
}

/// Ids of the active tokens of `o` in `s`, in order.
pub open spec fn owned_ids(s: Seq<RecTokenValue>, o: Address) -> Seq<u64>
    decreases s.len(),
{
    if s.len() == 0 {
        seq![]
    } else {
        owned_ids(s.drop_last(), o) + if active_of(s.last(), o) {
            seq![s.last().metadata.token_id]
        } else {
            seq![]
        }
    }
}

/// The part of `s` from position `start` holding at most `limit` items.
pub open spec fn page<A>(s: Seq<A>, start: int, limit: int) -> Seq<A> {
    if start >= s.len() {
        seq![]
    } else if start + limit >= s.len() {
        s.subrange(start, s.len() as int)
    } else {
        s.subrange(start, start + limit)
    }
}

proof fn lemma_page_push(s: Seq<u64>, x: u64, start: int, limit: int)
    requires
        0 <= start,
        0 <= limit,
        page(s, start, limit).len() <= limit,
    ensures
        page(s.push(x), start, limit) == if start <= s.len() && page(s, start, limit).len() < limit {
            page(s, start, limit).push(x)
        } else {
            page(s, start, limit)
        },
        page(s.push(x), start, limit).len() <= limit,
        page(s, start, limit).len() == if start >= s.len() { 0 } else if start + limit >= s.len() { s.len() - start } else { limit },
{
    if start <= s.len() && page(s, start, limit).len() < limit {
        assert(page(s.push(x), start, limit) =~= page(s, start, limit).push(x));
    } else {
        assert(page(s.push(x), start, limit) =~= page(s, start, limit));
    }
}

proof fn lemma_counts_bounded(s: Seq<RecTokenValue>, o: Address)
    ensures
        active_owned(s, o) <= s.len(),
        active_count(s) <= s.len(),
        owned_ids(s, o).len() == active_owned(s, o),
    decreases s.len(),
{
    if s.len() > 0 {
        lemma_counts_bounded(s.drop_last(), o);
    }
}

proof fn lemma_counts_push(s: Seq<RecTokenValue>, t: RecTokenValue, o: Address)
    ensures
        active_owned(s.push(t), o) == active_owned(s, o) + if active_of(t, o) {
            1nat
        } else {
            0nat
        },
        active_count(s.push(t)) == active_count(s) + if t.metadata.state == RecState::Active {
            1nat
        } else {
            0nat
        },
        owned_ids(s.push(t), o) == owned_ids(s, o) + if active_of(t, o) {
            seq![t.metadata.token_id]
        } else {
            seq![]
        },
{
    assert(s.push(t).drop_last() =~= s);
}

proof fn lemma_counts_update(s: Seq<RecTokenValue>, i: int, t: RecTokenValue, o: Address)
    requires
        0 <= i < s.len(),
    ensures
        active_owned(s.update(i, t), o) + (if active_of(s[i], o) {
            1int
        } else {
            0int
        }) == active_owned(s, o) + if active_of(t, o) {
            1int
        } else {
            0int
        },
        active_count(s.update(i, t)) + (if s[i].metadata.state == RecState::Active {
            1int
        } else {
            0int
        }) == active_count(s) + if t.metadata.state == RecState::Active {
            1int
        } else {
            0int
        },
    decreases s.len(),
{
    if i == s.len() - 1 {
        assert(s.update(i, t).drop_last() =~= s.drop_last());
    } else {
        assert(s.update(i, t).drop_last() =~= s.drop_last().update(i, t));
        lemma_counts_update(s.drop_last(), i, t, o);
    }
}

/// An owner's stored count of active tokens.
#[derive(Clone, Copy, Debug)]
struct OwnerCount {
    owner: Address,
    count: u64,
}

spec fn counts_nodup(c: Seq<OwnerCount>) -> bool {
    forall|i: int, j: int| 0 <= i < j < c.len() ==> #[trigger] c[i].owner != #[trigger] c[j].owner
}

spec fn counts_absent(c: Seq<OwnerCount>, o: Address) -> bool {
    forall|i: int| 0 <= i < c.len() ==> #[trigger] c[i].owner != o
}

/// The stored counts agree with `s` for every owner outside `ex`.
spec fn counts_ok_except(c: Seq<OwnerCount>, s: Seq<RecTokenValue>, ex: Set<Address>) -> bool {
    &&& counts_nodup(c)
    &&& forall|i: int|
        0 <= i < c.len() && !ex.contains(c[i].owner) ==> #[trigger] c[i].count == active_owned(
            s,
            c[i].owner,
        )
    &&& forall|o: Address|
        !ex.contains(o) && counts_absent(c, o) ==> #[trigger] active_owned(s, o) == 0
}

proof fn lemma_counts_widen(
    c: Seq<OwnerCount>,
    s1: Seq<RecTokenValue>,
    s2: Seq<RecTokenValue>,
    ex: Set<Address>,
    changed: Set<Address>,
)
    requires
        counts_ok_except(c, s1, ex),
        forall|o: Address| !changed.contains(o) ==> active_owned(s2, o) == active_owned(s1, o),
    ensures
        counts_ok_except(c, s2, ex.union(changed)),
{
    assert forall|o: Address|
        !ex.union(changed).contains(o) && counts_absent(c, o) implies #[trigger] active_owned(
        s2,
        o,
    ) == 0 by {
        assert(active_owned(s2, o) == active_owned(s1, o));
    }
    assert forall|i: int|
        0 <= i < c.len() && !ex.union(changed).contains(c[i].owner) implies #[trigger] c[i].count
        == active_owned(s2, c[i].owner) by {
        assert(active_owned(s2, c[i].owner) == active_owned(s1, c[i].owner));
    }
}

fn find_count(c: &Vec<OwnerCount>, o: &Address) -> (r: Option<usize>)
    ensures
        r matches Some(i) ==> i < c@.len() && c@[i as int].owner == *o,
        r is None ==> counts_absent(c@, *o),
{
    let mut i: usize = 0;
    while i < c.len()
        invariant
            0 <= i <= c@.len(),
            forall|j: int| 0 <= j < i ==> #[trigger] c@[j].owner != *o,
        decreases c@.len() - i,
    {
        if c[i].owner.same(o) {
            return Some(i);
        }
        i = i + 1;
    }
    None
}

/// Stored count of `o`, which must agree with `s`.
fn get_count(c: &Vec<OwnerCount>, o: &Address, Ghost(s): Ghost<Seq<RecTokenValue>>, Ghost(ex): Ghost<Set<Address>>) -> (r: u64)
    requires
        counts_ok_except(c@, s, ex),
        !ex.contains(*o),
    ensures
        r == active_owned(s, *o),
{
    match find_count(c, o) {
        Some(i) => c[i].count,
        None => 0,
    }
}

/// Stores `v` as the count of `o`.
fn set_count(c: &mut Vec<OwnerCount>, o: Address, v: u64, Ghost(s): Ghost<Seq<RecTokenValue>>, Ghost(ex): Ghost<Set<Address>>)
    requires
        counts_ok_except(old(c)@, s, ex),
        v == active_owned(s, o),
    ensures
        counts_ok_except(final(c)@, s, ex.remove(o)),
{
    match find_count(c, &o) {
        Some(i) => {
            c.set(i, OwnerCount { owner: o, count: v });
            assert forall|o2: Address|
                !ex.remove(o).contains(o2) && counts_absent(c@, o2) implies #[trigger] active_owned(
                s,
                o2,
            ) == 0 by {
                assert(c@[i as int].owner != o2);
                assert forall|k: int| 0 <= k < old(c)@.len() implies #[trigger] old(c)@[k].owner
                    != o2 by {
                    assert(c@[k].owner != o2);
                }
            }
        },
        None => {
            c.push(OwnerCount { owner: o, count: v });
            assert forall|o2: Address|
                !ex.remove(o).contains(o2) && counts_absent(c@, o2) implies #[trigger] active_owned(
                s,
                o2,
            ) == 0 by {
                assert(c@[c@.len() - 1].owner == o);
                assert forall|k: int| 0 <= k < old(c)@.len() implies #[trigger] old(c)@[k].owner
                    != o2 by {
                    assert(c@[k] == old(c)@[k]);
                }
            }
        },
    }
}

/// The registry's abstract state.
pub ghost struct RecTokenState {
    pub admin: Address,
    pub minter: Option<Address>,
    pub burner: Option<Address>,
    pub paused: bool,
    pub tokens: Seq<RecTokenValue>,
}

impl RecTokenState {
    /// Whether a token with this id has been minted.
    pub open spec fn has_token(self, id: u64) -> bool {
        1 <= id <= self.tokens.len()
    }

    /// The token with this id.
    pub open spec fn token(self, id: u64) -> RecTokenValue {
        self.tokens[id - 1]
    }

    /// What a transfer of `token_id` by `from` answers.
    pub open spec fn transfer_result(self, from: Address, token_id: u64) -> Result<
        (),
        RecTokenError,
    > {
        if self.paused {
            Err(RecTokenError::ContractPaused)
        } else if !self.has_token(token_id) {
            Err(RecTokenError::TokenNotFound)
        } else if self.token(token_id).metadata.state == RecState::Retired {
            Err(RecTokenError::RecAlreadyRetired)
        } else if self.token(token_id).owner != from {
            Err(RecTokenError::Unauthorized)
        } else {
            Ok(())
        }
    }

    /// What a burn of `token_id` by `caller` answers.
    pub open spec fn burn_result(self, caller: Address, token_id: u64) -> Result<(), RecTokenError> {
        if self.paused {
            Err(RecTokenError::ContractPaused)
        } else if !self.has_token(token_id) {
            Err(RecTokenError::TokenNotFound)
        } else if self.token(token_id).metadata.state == RecState::Retired {
            Err(RecTokenError::RecAlreadyRetired)
        } else if self.token(token_id).owner != caller && self.burner != Some(caller) {
            Err(RecTokenError::Unauthorized)
        } else {
            Ok(())
        }
    }

    /// Token `token_id` once burned at time `now`.
    pub open spec fn burned(self, token_id: u64, now: u64) -> RecTokenValue {
        let t = self.token(token_id);
        RecTokenValue {
            owner: t.owner,
            metadata: RecMetadata {
                state: RecState::Retired,
                retired_at: Some(now),
                ..t.metadata
            },
        }
    }

    /// Number of active tokens.
    pub open spec fn supply(self) -> nat {
        active_count(self.tokens)
    }

    /// Number of active tokens of `o`.
    pub open spec fn balance(self, o: Address) -> nat {
        active_owned(self.tokens, o)
    }

    /// Whether a token of this asset and generation time exists.
    pub open spec fn minted(self, asset_id: Bytes32, generation_timestamp: u64) -> bool {
        exists|i: int|
            0 <= i < self.tokens.len() && (#[trigger] self.tokens[i]).metadata.asset_id == asset_id
                && self.tokens[i].metadata.generation_timestamp == generation_timestamp
    }
}

/// The registry's state.
pub struct RecTokenContract {
    admin: Address,
    total_supply: u64,
    authorized_minter: Option<Address>,
    authorized_burner: Option<Address>,
    paused: bool,
    tokens: Vec<RecTokenValue>,
    owner_counts: Vec<OwnerCount>,
}

impl View for RecTokenContract {
    type V = RecTokenState;

    closed spec fn view(&self) -> RecTokenState {
        RecTokenState {
            admin: self.admin,
            minter: self.authorized_minter,
            burner: self.authorized_burner,
            paused: self.paused,
            tokens: self.tokens@,
        }
    }
}

/// A registry's state as plain values, for storing between calls.
#[derive(Clone, Debug, PartialEq, Eq)]
pub struct RecTokenData {
    pub admin: Address,
    pub minter: Option<Address>,
    pub burner: Option<Address>,
    pub paused: bool,
    pub tokens: Vec<RecTokenValue>,
}

impl RecTokenData {
    /// The abstract state these values describe.
    pub open spec fn state(self) -> RecTokenState {
        RecTokenState {
            admin: self.admin,
            minter: self.minter,
            burner: self.burner,
            paused: self.paused,
            tokens: self.tokens@,
        }
    }
}

/// Tokens are numbered from 1 in store order.
pub open spec fn numbered(tokens: Seq<RecTokenValue>) -> bool {
    &&& tokens.len() <= u64::MAX
    &&& forall|i: int| 0 <= i < tokens.len() ==> (#[trigger] tokens[i]).metadata.token_id == i + 1
}

impl RecTokenContract {
    /// The registry's internal consistency.
    pub closed spec fn wf(&self) -> bool {
        &&& self.tokens@.len() <= u64::MAX
        &&& forall|i: int|
            0 <= i < self.tokens@.len() ==> (#[trigger] self.tokens@[i]).metadata.token_id == i
                + 1
        &&& self.total_supply == active_count(self.tokens@)
        &&& counts_ok_except(self.owner_counts@, self.tokens@, Set::empty())
    }

    /// A well-formed registry numbers its tokens from 1 in order.
    pub proof fn lemma_wf_numbered(&self)
        requires
            self.wf(),
        ensures
            numbered(self@.tokens),
    {
    }

    /// The registry rebuilt from stored values; `None` unless its tokens
    /// are numbered from 1 in order.
    pub fn restore(data: RecTokenData) -> (r: Option<RecTokenContract>)
        ensures
            r is Some <==> numbered(data.tokens@),
            r matches Some(c) ==> c.wf() && c@ == data.state(),
    {
        let ghost orig = data.tokens@;
        let tokens = data.tokens;
        if tokens.len() as u128 > u64::MAX as u128 {
            return None;
        }
        let mut counts: Vec<OwnerCount> = Vec::new();
        let mut total: u64 = 0;
        let mut i: usize = 0;
        proof {
            assert(tokens@.subrange(0, 0) =~= Seq::<RecTokenValue>::empty());
            assert forall|o: Address| true implies #[trigger] active_owned(tokens@.subrange(0, 0), o) == 0 by {}
        }
        while i < tokens.len()
            invariant
                0 <= i <= tokens@.len() <= u64::MAX,
                tokens@ == orig,
                orig == data.tokens@,
                forall|j: int| 0 <= j < i ==> (#[trigger] tokens@[j]).metadata.token_id == j + 1,
                total == active_count(tokens@.subrange(0, i as int)),
                counts_ok_except(counts@, tokens@.subrange(0, i as int), Set::empty()),
            decreases tokens@.len() - i,
        {
            if tokens[i].metadata.token_id != i as u64 + 1 {
                assert(orig[i as int].metadata.token_id != i + 1);
                return None;
            }
            let ghost pre = tokens@.subrange(0, i as int);
            let ghost next = tokens@.subrange(0, i + 1);
            let t = &tokens[i];
            proof {
                assert(next =~= pre.push(*t));
                lemma_counts_push(pre, *t, t.owner);
                lemma_counts_bounded(next, t.owner);
                assert forall|o: Address| o != t.owner implies active_owned(next, o) == active_owned(pre, o) by {
                    lemma_counts_push(pre, *t, o);
                }
            }
            if t.metadata.state == RecState::Active {
                let ghost ex = set![t.owner];
                let before = get_count(&counts, &t.owner, Ghost(pre), Ghost(Set::empty()));
                proof {
                    assert forall|o: Address| !set![t.owner].contains(o) implies active_owned(next, o)
                        == active_owned(pre, o) by {}
                    lemma_counts_widen(counts@, pre, next, Set::empty(), set![t.owner]);
                    assert(Set::<Address>::empty().union(set![t.owner]) =~= set![t.owner]);
                }
                set_count(&mut counts, t.owner, before + 1, Ghost(next), Ghost(ex));
                proof {
                    assert(set![t.owner].remove(t.owner) =~= Set::<Address>::empty());
                }
                total = total + 1;
            } else {
                proof {
                    assert forall|o: Address| !Set::<Address>::empty().contains(o) implies active_owned(next, o)
                        == active_owned(pre, o) by {}
                    lemma_counts_widen(counts@, pre, next, Set::empty(), Set::empty());
                    assert(Set::<Address>::empty().union(Set::empty()) =~= Set::<Address>::empty());
                }
            }
            i = i + 1;
        }
        proof {
            assert(tokens@.subrange(0, tokens@.len() as int) =~= tokens@);
        }
        Some(RecTokenContract {
            admin: data.admin,
            total_supply: total,
            authorized_minter: data.minter,
            authorized_burner: data.burner,
            paused: data.paused,
            tokens,
            owner_counts: counts,
        })
    }

    /// The registry's state as plain values.
    pub fn data(&self) -> (r: RecTokenData)
        ensures
            r.admin == self@.admin,
            r.minter == self@.minter,
            r.burner == self@.burner,
            r.paused == self@.paused,
            r.tokens@.len() == self@.tokens.len(),
            forall|i: int| 0 <= i < r.tokens@.len() ==> (#[trigger] r.tokens@[i]).owner == self@.tokens[i].owner
                && r.tokens@[i].metadata.same_content(self@.tokens[i].metadata),
    {
        let mut tokens: Vec<RecTokenValue> = Vec::new();
        let mut i: usize = 0;
        while i < self.tokens.len()
            invariant
                0 <= i <= self.tokens@.len(),
                tokens@.len() == i,
                forall|j: int| 0 <= j < i ==> (#[trigger] tokens@[j]).owner == self.tokens@[j].owner
                    && tokens@[j].metadata.same_content(self.tokens@[j].metadata),
            decreases self.tokens@.len() - i,
        {
            tokens.push(RecTokenValue { owner: self.tokens[i].owner, metadata: self.tokens[i].metadata.duplicate() });
            i = i + 1;
        }
        RecTokenData {
            admin: self.admin,
            minter: self.authorized_minter,
            burner: self.authorized_burner,
            paused: self.paused,
            tokens,
        }
    }

    /// An empty registry run by `admin`.
    pub fn new(admin: Address) -> (r: RecTokenContract)
        ensures
            r.wf(),
            r@ == (RecTokenState {
                admin,
                minter: None,
                burner: None,
                paused: false,
                tokens: seq![],
            }),
    {
        let r = RecTokenContract {
            admin,
            total_supply: 0,
            authorized_minter: None,
            authorized_burner: None,
            paused: false,
            tokens: Vec::new(),
            owner_counts: Vec::new(),
        };
        assert forall|o: Address| true implies #[trigger] active_owned(r.tokens@, o) == 0 by {}
        r
    }

    /// The administrator.
    pub fn admin(&self) -> (r: Address)
        ensures
            r == self@.admin,
    {
        self.admin
    }

    /// Hands administration to `new_admin`.
    pub fn transfer_admin(&mut self, new_admin: Address)
        requires
            old(self).wf(),
        ensures
            final(self).wf(),
            final(self)@ == (RecTokenState { admin: new_admin, ..old(self)@ }),
    {
        self.admin = new_admin;
    }

    /// Number of active tokens.
    pub fn total_supply(&self) -> (r: u64)
        requires
            self.wf(),
        ensures
            r == self@.supply(),
    {
        self.total_supply
    }

    /// Number of active tokens of `owner`.
    pub fn balance_of(&self, owner: Address) -> (r: u64)
        requires
            self.wf(),
        ensures
            r == self@.balance(owner),
    {
        get_count(&self.owner_counts, &owner, Ghost(self.tokens@), Ghost(Set::empty()))
    }

    /// Position of token `token_id` in the store, when it exists.
    fn index_of(&self, token_id: u64) -> (r: Option<usize>)
        requires
            self.wf(),
        ensures
            r matches Some(i) ==> i == token_id - 1 && self@.has_token(token_id),
            r is None ==> !self@.has_token(token_id),
    {
        if token_id >= 1 && token_id <= self.tokens.len() as u64 {
            Some((token_id - 1) as usize)
        } else {
            None
        }
    }

    /// Owner of token `token_id`.
    pub fn owner_of(&self, token_id: u64) -> (r: Result<Address, RecTokenError>)
        requires
            self.wf(),
        ensures
            self@.has_token(token_id) ==> r == Ok::<Address, RecTokenError>(
                self@.token(token_id).owner,
            ),
            !self@.has_token(token_id) ==> r == Err::<Address, RecTokenError>(
                RecTokenError::TokenNotFound,
            ),
    {
        match self.index_of(token_id) {
            Some(i) => Ok(self.tokens[i].owner),
            None => Err(RecTokenError::TokenNotFound),
        }
    }

    /// Metadata location of token `token_id`.
    pub fn token_uri(&self, token_id: u64) -> (r: Result<Vec<u8>, RecTokenError>)
        requires
            self.wf(),
        ensures
            self@.has_token(token_id) ==> (r matches Ok(u) && u@
                == self@.token(token_id).metadata.metadata_uri@),
            !self@.has_token(token_id) ==> r == Err::<Vec<u8>, RecTokenError>(
                RecTokenError::TokenNotFound,
            ),
    {
        match self.index_of(token_id) {
            Some(i) => Ok(copy_bytes(&self.tokens[i].metadata.metadata_uri)),
            None => Err(RecTokenError::TokenNotFound),
        }
    }

    /// Metadata of token `token_id`.
    pub fn token_metadata(&self, token_id: u64) -> (r: Result<RecMetadata, RecTokenError>)
        requires
            self.wf(),
        ensures
            self@.has_token(token_id) ==> (r matches Ok(m) && m.same_content(
                self@.token(token_id).metadata,
            )),
            !self@.has_token(token_id) ==> r == Err::<RecMetadata, RecTokenError>(
                RecTokenError::TokenNotFound,
            ),
    {
        match self.index_of(token_id) {
            Some(i) => Ok(self.tokens[i].metadata.duplicate()),
            None => Err(RecTokenError::TokenNotFound),
        }
    }

    /// Lets `minter` mint tokens.
    pub fn authorize_minter(&mut self, minter: Address)
        requires
            old(self).wf(),
        ensures
            final(self).wf(),
            final(self)@ == (RecTokenState { minter: Some(minter), ..old(self)@ }),
    {
        self.authorized_minter = Some(minter);
    }

    /// Lets `burner` burn tokens it does not own.
    pub fn authorize_burner(&mut self, burner: Address)
        requires
            old(self).wf(),
        ensures
            final(self).wf(),
            final(self)@ == (RecTokenState { burner: Some(burner), ..old(self)@ }),
    {
        self.authorized_burner = Some(burner);
    }

    /// Withdraws the minting authorization.
    pub fn revoke_minter(&mut self)
        requires
            old(self).wf(),
        ensures
            final(self).wf(),
            final(self)@ == (RecTokenState { minter: None, ..old(self)@ }),
    {
        self.authorized_minter = None;
    }

    /// Withdraws the burning authorization.
    pub fn revoke_burner(&mut self)
        requires
            old(self).wf(),
        ensures
            final(self).wf(),
            final(self)@ == (RecTokenState { burner: None, ..old(self)@ }),
    {
        self.authorized_burner = None;
    }

    /// The address allowed to mint, if any.
    pub fn authorized_minter(&self) -> (r: Option<Address>)
        ensures
            r == self@.minter,
    {
        self.authorized_minter
    }

    /// The address allowed to burn others' tokens, if any.
    pub fn authorized_burner(&self) -> (r: Option<Address>)
        ensures
            r == self@.burner,
    {
        self.authorized_burner
    }

    /// Halts minting, transfers and burns.
    pub fn pause(&mut self)
        requires
            old(self).wf(),
        ensures
            final(self).wf(),
            final(self)@ == (RecTokenState { paused: true, ..old(self)@ }),
    {
        self.paused = true;
    }

    /// Lifts a halt.
    pub fn resume(&mut self)
        requires
            old(self).wf(),
        ensures
            final(self).wf(),
            final(self)@ == (RecTokenState { paused: false, ..old(self)@ }),
    {
        self.paused = false;
    }

    /// Whether the registry is halted.
    pub fn paused(&self) -> (r: bool)
        ensures
            r == self@.paused,
    {
        self.paused
    }

    /// Whether a token of this asset and generation time exists.
    fn minted(&self, asset_id: &Bytes32, generation_timestamp: u64) -> (r: bool)
        ensures
            r == self@.minted(*asset_id, generation_timestamp),
    {
        let mut i: usize = 0;
        while i < self.tokens.len()
            invariant
                0 <= i <= self.tokens@.len(),
                forall|j: int|
                    0 <= j < i ==> !((#[trigger] self.tokens@[j]).metadata.asset_id == *asset_id
                        && self.tokens@[j].metadata.generation_timestamp == generation_timestamp),
            decreases self.tokens@.len() - i,
        {
            if bytes32_eq(&self.tokens[i].metadata.asset_id, asset_id)
                && self.tokens[i].metadata.generation_timestamp == generation_timestamp {
                return true;
            }
            i = i + 1;
        }
        false
    }

    /// Mints the next token to `to`.
    ///
    /// Fails with `ContractPaused` while halted, with `Unauthorized` when no
    /// minter is authorized, and with `DuplicateMint` when a token of the same
    /// asset and generation time exists. The new token is active, numbered
    /// one past the last, and its number is returned.
    pub fn mint(
        &mut self,
        to: Address,
        asset_id: Bytes32,
        generation_timestamp: u64,
        fuel_type: FuelType,
        vintage_year: u32,
        metadata_uri: Vec<u8>,
    ) -> (r: Result<u64, RecTokenError>)
        requires
            old(self).wf(),
            old(self)@.tokens.len() < u64::MAX,
        ensures
            final(self).wf(),
            old(self)@.paused ==> r == Err::<u64, RecTokenError>(RecTokenError::ContractPaused),
            !old(self)@.paused && old(self)@.minter is None ==> r == Err::<u64, RecTokenError>(
                RecTokenError::Unauthorized,
            ),
            !old(self)@.paused && old(self)@.minter is Some && old(self)@.minted(
                asset_id,
                generation_timestamp,
            ) ==> r == Err::<u64, RecTokenError>(RecTokenError::DuplicateMint),
            r is Err ==> final(self)@ == old(self)@,
            !old(self)@.paused && old(self)@.minter is Some && !old(self)@.minted(
                asset_id,
                generation_timestamp,
            ) ==> r == Ok::<u64, RecTokenError>((old(self)@.tokens.len() + 1) as u64)
                && final(self)@ == (RecTokenState {
                tokens: old(self)@.tokens.push(
                    RecTokenValue {
                        owner: to,
                        metadata: RecMetadata {
                            token_id: (old(self)@.tokens.len() + 1) as u64,
                            asset_id,
                            generation_timestamp,
                            fuel_type,
                            vintage_year,
                            metadata_uri,
                            state: RecState::Active,
                            retired_at: None,
                            retirement_receipt: None,
                        },
                    },
                ),
                ..old(self)@
            }),
    {
        if self.paused {
            return Err(RecTokenError::ContractPaused);
        }
        if self.authorized_minter.is_none() {
            return Err(RecTokenError::Unauthorized);
        }
        if self.minted(&asset_id, generation_timestamp) {
            return Err(RecTokenError::DuplicateMint);
        }
        let id = self.tokens.len() as u64 + 1;
        let ghost s0 = self.tokens@;
        let t = RecTokenValue {
            owner: to,
            metadata: RecMetadata {
                token_id: id,
                asset_id,
                generation_timestamp,
                fuel_type,
                vintage_year,
                metadata_uri,
                state: RecState::Active,
                retired_at: None,
                retirement_receipt: None,
            },
        };
        let before = get_count(&self.owner_counts, &to, Ghost(s0), Ghost(Set::empty()));
        self.tokens.push(t);
        proof {
            lemma_counts_push(s0, t, to);
            lemma_counts_bounded(self.tokens@, to);
            assert forall|o: Address| !set![to].contains(o) implies active_owned(self.tokens@, o)
                == active_owned(s0, o) by {
                lemma_counts_push(s0, t, o);
            }
            lemma_counts_widen(self.owner_counts@, s0, self.tokens@, Set::empty(), set![to]);
            assert(Set::<Address>::empty().union(set![to]) =~= set![to]);
        }
        let ghost ex = set![to];
        set_count(&mut self.owner_counts, to, before + 1, Ghost(self.tokens@), Ghost(ex));
        proof {
            assert(set![to].remove(to) =~= Set::<Address>::empty());
            lemma_counts_bounded(s0, to);
        }
        self.total_supply = self.total_supply + 1;
        Ok(id)
    }

    /// Moves token `token_id` from `from` to `to`.
    ///
    /// Fails with `ContractPaused` while halted, `TokenNotFound` for an
    /// unknown token, `RecAlreadyRetired` for a retired one, and
    /// `Unauthorized` when `from` does not own it.
    pub fn transfer(&mut self, from: Address, to: Address, token_id: u64) -> (r: Result<
        (),
        RecTokenError,
    >)
        requires
            old(self).wf(),
        ensures
            final(self).wf(),
            r == old(self)@.transfer_result(from, token_id),
            r is Err ==> final(self)@ == old(self)@,
            r is Ok ==> final(self)@ == (RecTokenState {
                tokens: old(self)@.tokens.update(
                    token_id - 1,
                    RecTokenValue { owner: to, metadata: old(self)@.token(token_id).metadata },
                ),
                ..old(self)@
            }),
    {
        if self.paused {
            return Err(RecTokenError::ContractPaused);
        }
        let i = match self.index_of(token_id) {
            Some(i) => i,
            None => {
                return Err(RecTokenError::TokenNotFound);
            },
        };
        if self.tokens[i].metadata.state == RecState::Retired {
            return Err(RecTokenError::RecAlreadyRetired);
        }
        if !self.tokens[i].owner.same(&from) {
            return Err(RecTokenError::Unauthorized);
        }
        if from.same(&to) {
            assert(self.tokens@.update(i as int, RecTokenValue { owner: to, metadata: self.tokens@[i as int].metadata }) =~= self.tokens@);
            return Ok(());
        }
        let ghost s0 = self.tokens@;
        let from_count = get_count(&self.owner_counts, &from, Ghost(s0), Ghost(Set::empty()));
        let to_count = get_count(&self.owner_counts, &to, Ghost(s0), Ghost(Set::empty()));
        let old_t = self.tokens.remove(i);
        let t = RecTokenValue { owner: to, metadata: old_t.metadata };
        self.tokens.insert(i, t);
        proof {
            assert(self.tokens@ =~= s0.update(i as int, t));
            lemma_counts_update(s0, i as int, t, from);
            lemma_counts_update(s0, i as int, t, to);
            lemma_counts_update(s0, i as int, t, from);
            lemma_counts_bounded(self.tokens@, to);
            assert forall|o: Address| !set![from, to].contains(o) implies active_owned(
                self.tokens@,
                o,
            ) == active_owned(s0, o) by {
                lemma_counts_update(s0, i as int, t, o);
            }
            lemma_counts_widen(self.owner_counts@, s0, self.tokens@, Set::empty(), set![from, to]);
            assert(Set::<Address>::empty().union(set![from, to]) =~= set![from, to]);
        }
        let ghost ex = set![from, to];
        set_count(
            &mut self.owner_counts,
            from,
            from_count - 1,
            Ghost(self.tokens@),
            Ghost(ex),
        );
        set_count(
            &mut self.owner_counts,
            to,
            to_count + 1,
            Ghost(self.tokens@),
            Ghost(ex.remove(from)),
        );
        proof {
            assert(set![from, to].remove(from).remove(to) =~= Set::<Address>::empty());
        }
        Ok(())
    }

    /// Retires token `token_id` on behalf of `caller` at time `now`.
    ///
    /// Fails with `ContractPaused` while halted, `TokenNotFound` for an
    /// unknown token, `RecAlreadyRetired` for a retired one, and
    /// `Unauthorized` when `caller` is neither its owner nor the
    /// authorized burner. A burned token keeps its owner and record.
    pub fn burn(&mut self, caller: Address, token_id: u64, now: u64) -> (r: Result<(), RecTokenError>)
        requires
            old(self).wf(),
        ensures
            final(self).wf(),
            r == old(self)@.burn_result(caller, token_id),
            r is Err ==> final(self)@ == old(self)@,
            r is Ok ==> final(self)@ == (RecTokenState {
                tokens: old(self)@.tokens.update(token_id - 1, old(self)@.burned(token_id, now)),
                ..old(self)@
            }),
    {
        if self.paused {
            return Err(RecTokenError::ContractPaused);
        }
        let i = match self.index_of(token_id) {
            Some(i) => i,
            None => {
                return Err(RecTokenError::TokenNotFound);
            },
        };
        if self.tokens[i].metadata.state == RecState::Retired {
            return Err(RecTokenError::RecAlreadyRetired);
        }
        let owner = self.tokens[i].owner;
        let by_burner = match self.authorized_burner {
            Some(b) => b.same(&caller),
            None => false,
        };
        if !owner.same(&caller) && !by_burner {
            return Err(RecTokenError::Unauthorized);
        }
        let ghost s0 = self.tokens@;
        let owner_count = get_count(&self.owner_counts, &owner, Ghost(s0), Ghost(Set::empty()));
        let old_t = self.tokens.remove(i);
        let md = old_t.metadata;
        let t = RecTokenValue {
            owner,
            metadata: RecMetadata {
                token_id: md.token_id,
                asset_id: md.asset_id,
                generation_timestamp: md.generation_timestamp,
                fuel_type: md.fuel_type,
                vintage_year: md.vintage_year,
                metadata_uri: md.metadata_uri,
                state: RecState::Retired,
                retired_at: Some(now),
                retirement_receipt: md.retirement_receipt,
            },
        };
        self.tokens.insert(i, t);
        proof {
            assert(self.tokens@ =~= s0.update(i as int, t));
            lemma_counts_update(s0, i as int, t, owner);
            lemma_counts_bounded(s0, owner);
            assert forall|o: Address| !set![owner].contains(o) implies active_owned(
                self.tokens@,
                o,
            ) == active_owned(s0, o) by {
                lemma_counts_update(s0, i as int, t, o);
            }
            lemma_counts_widen(self.owner_counts@, s0, self.tokens@, Set::empty(), set![owner]);
            assert(Set::<Address>::empty().union(set![owner]) =~= set![owner]);
        }
        let ghost ex = set![owner];
        set_count(&mut self.owner_counts, owner, owner_count - 1, Ghost(self.tokens@), Ghost(ex));
        proof {
            assert(ex.remove(owner) =~= Set::<Address>::empty());
        }
        self.total_supply = self.total_supply - 1;
        Ok(())
    }

    /// Replaces the metadata location of token `token_id`.
    pub fn set_metadata_uri(&mut self, token_id: u64, uri: Vec<u8>) -> (r: Result<(), RecTokenError>)
        requires
            old(self).wf(),
        ensures
            final(self).wf(),
            !old(self)@.has_token(token_id) ==> r == Err::<(), RecTokenError>(RecTokenError::TokenNotFound)
                && final(self)@ == old(self)@,
            old(self)@.has_token(token_id) ==> r == Ok::<(), RecTokenError>(()) && final(self)@ == (RecTokenState {
                tokens: old(self)@.tokens.update(
                    token_id - 1,
                    RecTokenValue {
                        owner: old(self)@.token(token_id).owner,
                        metadata: RecMetadata {
                            metadata_uri: uri,
                            ..old(self)@.token(token_id).metadata
                        },
                    },
                ),
                ..old(self)@
            }),
    {
        let i = match self.index_of(token_id) {
            Some(i) => i,
            None => {
                return Err(RecTokenError::TokenNotFound);
            },
        };
        let ghost s0 = self.tokens@;
        let old_t = self.tokens.remove(i);
        let md = old_t.metadata;
        let t = RecTokenValue {
            owner: old_t.owner,
            metadata: RecMetadata {
                token_id: md.token_id,
                asset_id: md.asset_id,
                generation_timestamp: md.generation_timestamp,
                fuel_type: md.fuel_type,
                vintage_year: md.vintage_year,
                metadata_uri: uri,
                state: md.state,
                retired_at: md.retired_at,
                retirement_receipt: md.retirement_receipt,
            },
        };
        self.tokens.insert(i, t);
        proof {
            assert(self.tokens@ =~= s0.update(i as int, t));
            assert forall|o: Address| true implies active_owned(self.tokens@, o) == active_owned(s0, o) by {
                lemma_counts_update(s0, i as int, t, o);
            }
            lemma_counts_update(s0, i as int, t, old_t.owner);
            lemma_counts_widen(self.owner_counts@, s0, self.tokens@, Set::empty(), Set::empty());
            assert(Set::<Address>::empty().union(Set::empty()) =~= Set::<Address>::empty());
        }
        Ok(())
    }

    /// The ids of the active tokens of `owner`, in order, from position
    /// `start` of that list and at most `limit` of them.
    pub fn tokens_by_owner(&self, owner: Address, start: u64, limit: u64) -> (r: Vec<u64>)
        requires
            self.wf(),
        ensures
            r@ == page(owned_ids(self@.tokens, owner), start as int, limit as int),
    {
        let mut r: Vec<u64> = Vec::new();
        let mut seen: u64 = 0;
        let mut i: usize = 0;
        proof {
            assert(self.tokens@.subrange(0, 0) =~= Seq::<RecTokenValue>::empty());
        }
        while i < self.tokens.len()
            invariant
                self.wf(),
                0 <= i <= self.tokens@.len(),
                seen == owned_ids(self.tokens@.subrange(0, i as int), owner).len(),
                r@ == page(owned_ids(self.tokens@.subrange(0, i as int), owner), start as int, limit as int),
            decreases self.tokens@.len() - i,
        {
            let ghost pre = self.tokens@.subrange(0, i as int);
            proof {
                assert(self.tokens@.subrange(0, i + 1) =~= pre.push(self.tokens@[i as int]));
                lemma_counts_push(pre, self.tokens@[i as int], owner);
                lemma_counts_bounded(pre, owner);
                lemma_page_push(owned_ids(pre, owner), self.tokens@[i as int].metadata.token_id, start as int, limit as int);
            }
            if self.tokens[i].metadata.state == RecState::Active && self.tokens[i].owner.same(&owner) {
                if seen >= start && (r.len() as u64) < limit {
                    r.push(self.tokens[i].metadata.token_id);
                }
                seen = seen + 1;
            }
            i = i + 1;
        }
        proof {
            assert(self.tokens@.subrange(0, self.tokens@.len() as int) =~= self.tokens@);
        }
        r
    }
}

} // verus!

verus! {

/// Minting an active token adds one to the supply and to its owner's
/// balance, and leaves every other balance as it was.
pub proof fn law_mint_credits_recipient(s: RecTokenState, t: RecTokenValue, o: Address)
    requires
        t.metadata.state == RecState::Active,
    ensures
        (RecTokenState { tokens: s.tokens.push(t), ..s }).supply() == s.supply() + 1,
        (RecTokenState { tokens: s.tokens.push(t), ..s }).balance(o) == if o == t.owner {
            s.balance(o) + 1
        } else {
            s.balance(o)
        },
{
    lemma_counts_push(s.tokens, t, o);
}

/// Each generation of an asset is minted once: after a token of an asset
/// and generation time is minted, that pair counts as minted, and
/// transfers and burns keep it so; a later mint of it is therefore refused
/// with `DuplicateMint`.
pub proof fn law_duplicate_mint_refused(
    s: RecTokenState,
    t: RecTokenValue,
    asset_id: Bytes32,
    generation_timestamp: u64,
    to: Address,
    token_id: u64,
    now: u64,
)
    requires
        s.has_token(token_id),
    ensures
        (RecTokenState { tokens: s.tokens.push(t), ..s }).minted(
            t.metadata.asset_id,
            t.metadata.generation_timestamp,
        ),
        s.minted(asset_id, generation_timestamp) ==> (RecTokenState {
            tokens: s.tokens.update(
                token_id - 1,
                RecTokenValue { owner: to, metadata: s.token(token_id).metadata },
            ),
            ..s
        }).minted(asset_id, generation_timestamp),
        s.minted(asset_id, generation_timestamp) ==> (RecTokenState {
            tokens: s.tokens.update(token_id - 1, s.burned(token_id, now)),
            ..s
        }).minted(asset_id, generation_timestamp),
{
    let s1 = RecTokenState { tokens: s.tokens.push(t), ..s };
    assert(s1.tokens[s.tokens.len() as int] == t);
    if s.minted(asset_id, generation_timestamp) {
        let i = choose|i: int|
            0 <= i < s.tokens.len() && (#[trigger] s.tokens[i]).metadata.asset_id == asset_id
                && s.tokens[i].metadata.generation_timestamp == generation_timestamp;
        let s2 = RecTokenState {
            tokens: s.tokens.update(
                token_id - 1,
                RecTokenValue { owner: to, metadata: s.token(token_id).metadata },
            ),
            ..s
        };
        let s3 = RecTokenState { tokens: s.tokens.update(token_id - 1, s.burned(token_id, now)), ..s };
        assert(s2.tokens[i].metadata.asset_id == asset_id);
        assert(s3.tokens[i].metadata.asset_id == asset_id);
    }
}

/// A successful transfer between two different owners takes one token
/// from the sender, gives one to the receiver, leaves every other balance
/// and the supply unchanged.
pub proof fn law_transfer_moves_one(s: RecTokenState, from: Address, to: Address, token_id: u64, o: Address)
    requires
        s.transfer_result(from, token_id) is Ok,
        from != to,
    ensures
        ({
            let s2 = RecTokenState {
                tokens: s.tokens.update(
                    token_id - 1,
                    RecTokenValue { owner: to, metadata: s.token(token_id).metadata },
                ),
                ..s
            };
            &&& s2.supply() == s.supply()
            &&& s2.balance(from) + 1 == s.balance(from)
            &&& s2.balance(to) == s.balance(to) + 1
            &&& o != from && o != to ==> s2.balance(o) == s.balance(o)
        }),
{
    let t = RecTokenValue { owner: to, metadata: s.token(token_id).metadata };
    lemma_counts_update(s.tokens, token_id - 1, t, from);
    lemma_counts_update(s.tokens, token_id - 1, t, to);
    lemma_counts_update(s.tokens, token_id - 1, t, o);
}

/// A successful burn takes one token out of the supply and out of its
/// owner's balance, leaves every other balance unchanged, and the token
/// stays recorded as retired.
pub proof fn law_burn_removes_one(s: RecTokenState, caller: Address, token_id: u64, now: u64, o: Address)
    requires
        s.burn_result(caller, token_id) is Ok,
    ensures
        ({
            let owner = s.token(token_id).owner;
            let s2 = RecTokenState {
                tokens: s.tokens.update(token_id - 1, s.burned(token_id, now)),
                ..s
            };
            &&& s2.supply() + 1 == s.supply()
            &&& s2.balance(owner) + 1 == s.balance(owner)
            &&& o != owner ==> s2.balance(o) == s.balance(o)
            &&& s2.token(token_id).metadata.state == RecState::Retired
            &&& s2.token(token_id).metadata.retired_at == Some(now)
        }),
{
    let t = s.burned(token_id, now);
    lemma_counts_update(s.tokens, token_id - 1, t, s.token(token_id).owner);
    lemma_counts_update(s.tokens, token_id - 1, t, o);
}

/// The balances of the owners listed in `os`, added up.
pub open spec fn balance_sum(s: RecTokenState, os: Seq<Address>) -> nat
    decreases os.len(),
{
    if os.len() == 0 {
        0
    } else {
        balance_sum(s, os.drop_last()) + s.balance(os.last())
    }
}

spec fn owned_sum(t: Seq<RecTokenValue>, os: Seq<Address>) -> nat
    decreases os.len(),
{
    if os.len() == 0 {
        0
    } else {
        owned_sum(t, os.drop_last()) + active_owned(t, os.last())
    }
}

proof fn lemma_balance_sum(s: RecTokenState, os: Seq<Address>)
    ensures
        balance_sum(s, os) == owned_sum(s.tokens, os),
    decreases os.len(),
{
    if os.len() > 0 {
        lemma_balance_sum(s, os.drop_last());
    }
}

proof fn lemma_owned_sum_push(t: Seq<RecTokenValue>, x: RecTokenValue, os: Seq<Address>)
    requires
        os.no_duplicates(),
    ensures
        owned_sum(t.push(x), os) == owned_sum(t, os) + if x.metadata.state == RecState::Active && os.contains(x.owner) {
            1nat
        } else {
            0nat
        },
    decreases os.len(),
{
    if os.len() > 0 {
        let od = os.drop_last();
        let o = os.last();
        assert(od.no_duplicates()) by {
            assert forall|i: int, j: int| 0 <= i < od.len() && 0 <= j < od.len() && i != j implies od[i] != od[j] by {
                assert(od[i] == os[i] && od[j] == os[j]);
            }
        }
        lemma_owned_sum_push(t, x, od);
        lemma_counts_push(t, x, o);
        assert(os.contains(x.owner) == (od.contains(x.owner) || o == x.owner)) by {
            if os.contains(x.owner) {
                let k = choose|k: int| 0 <= k < os.len() && os[k] == x.owner;
                if k < od.len() {
                    assert(od[k] == x.owner);
                }
            }
            if od.contains(x.owner) {
                let k = choose|k: int| 0 <= k < od.len() && od[k] == x.owner;
                assert(os[k] == x.owner);
            }
            if o == x.owner {
                assert(os[os.len() - 1] == x.owner);
            }
        }
        if od.contains(x.owner) {
            let k = choose|k: int| 0 <= k < od.len() && od[k] == x.owner;
            assert(os[k] == od[k]);
            assert(os[os.len() - 1] != os[k]);
        }
    }
}

proof fn lemma_owned_sum_total(t: Seq<RecTokenValue>, os: Seq<Address>)
    requires
        os.no_duplicates(),
        forall|i: int| 0 <= i < t.len() && (#[trigger] t[i]).metadata.state == RecState::Active ==> os.contains(t[i].owner),
    ensures
        owned_sum(t, os) == active_count(t),
    decreases t.len(),
{
    if t.len() == 0 {
        lemma_owned_sum_zero(t, os);
    } else {
        let td = t.drop_last();
        assert forall|i: int| 0 <= i < td.len() && (#[trigger] td[i]).metadata.state == RecState::Active implies os.contains(td[i].owner) by {
            assert(td[i] == t[i]);
        }
        lemma_owned_sum_total(td, os);
        assert(td.push(t.last()) =~= t);
        lemma_owned_sum_push(td, t.last(), os);
        lemma_counts_push(td, t.last(), t.last().owner);
        if t.last().metadata.state == RecState::Active {
            assert(t[t.len() - 1] == t.last());
        }
    }
}

proof fn lemma_owned_sum_zero(t: Seq<RecTokenValue>, os: Seq<Address>)
    requires
        t.len() == 0,
    ensures
        owned_sum(t, os) == 0,
    decreases os.len(),
{
    if os.len() > 0 {
        lemma_owned_sum_zero(t, os.drop_last());
    }
}

/// The supply is the sum of the balances: added up over any list of
/// distinct owners that includes every holder of an active token, the
/// balances give the total supply.
pub proof fn law_supply_is_sum_of_balances(s: RecTokenState, os: Seq<Address>)
    requires
        os.no_duplicates(),
        forall|i: int| 0 <= i < s.tokens.len() && (#[trigger] s.tokens[i]).metadata.state == RecState::Active
            ==> os.contains(s.tokens[i].owner),
    ensures
        balance_sum(s, os) == s.supply(),
{
    lemma_balance_sum(s, os);
    lemma_owned_sum_total(s.tokens, os);
}

/// While the registry is halted no token moves or is burned, whoever asks.
pub proof fn law_pause_blocks_moves(s: RecTokenState, who: Address, token_id: u64)
    requires
        s.paused,
    ensures
        s.transfer_result(who, token_id) == Err::<(), RecTokenError>(RecTokenError::ContractPaused),
        s.burn_result(who, token_id) == Err::<(), RecTokenError>(RecTokenError::ContractPaused),
{
}

/// A retired token can neither move nor be burned again.
pub proof fn law_retired_is_final(s: RecTokenState, who: Address, token_id: u64)
    requires
        !s.paused,
        s.has_token(token_id),
        s.token(token_id).metadata.state == RecState::Retired,
    ensures
        s.transfer_result(who, token_id) == Err::<(), RecTokenError>(RecTokenError::RecAlreadyRetired),
        s.burn_result(who, token_id) == Err::<(), RecTokenError>(RecTokenError::RecAlreadyRetired),
{
}

/// The listing of an owner's tokens has as many entries as the owner's
/// balance, and the first page of that size is the whole listing.
pub proof fn law_listing_matches_balance(s: RecTokenState, o: Address)
    ensures
        owned_ids(s.tokens, o).len() == s.balance(o),
        page(owned_ids(s.tokens, o), 0, s.balance(o) as int) == owned_ids(s.tokens, o),
{
    lemma_counts_bounded(s.tokens, o);
    assert(owned_ids(s.tokens, o).subrange(0, owned_ids(s.tokens, o).len() as int) =~= owned_ids(s.tokens, o));
}

} // verus!
