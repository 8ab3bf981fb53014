//! Identifiers: 32-byte keys, account/contract addresses and their
//! canonical byte encodings.
use vstd::prelude::*;

verus! {

broadcast use vstd::array::group_array_axioms;

/// A 32-byte identifier (public key, hash, asset or meter id).
pub type Bytes32 = [u8; 32];

/// Byte-wise equality of two 32-byte identifiers.
pub fn bytes32_eq(a: &Bytes32, b: &Bytes32) -> (r: bool)
    ensures
        r == (*a == *b),
{
    let mut i: usize = 0;
    while i < 32
        invariant
            0 <= i <= 32,
            forall|j: int| 0 <= j < i ==> a[j] == b[j],
        decreases 32 - i,
    {
        if a[i] != b[i] {
            return false;
        }
        i = i + 1;
    }
    assert(*a =~= *b);
    true
}

/// The two kinds of ledger address.
#[derive(Clone, Copy, Debug, PartialEq, Eq, Structural)]
pub enum AddressKind {
    Account,
    Contract,
}

/// A ledger address: an account's ed25519 key or a contract's hash.
#[derive(Clone, Copy, Debug, PartialEq, Eq)]
pub struct Address {
    pub kind: AddressKind,
    pub key: Bytes32,
}

impl Address {
    /// An account address with the given public key.
    pub fn account(key: Bytes32) -> (r: Address)
        ensures
            r.kind == AddressKind::Account,
            r.key == key,
    {
        Address { kind: AddressKind::Account, key }
    }

    /// A contract address with the given contract hash.
    pub fn contract(key: Bytes32) -> (r: Address)
        ensures
            r.kind == AddressKind::Contract,
            r.key == key,
    {
        Address { kind: AddressKind::Contract, key }
    }

    /// Whether two addresses are the same.
    pub fn same(&self, other: &Address) -> (r: bool)
        ensures
            r == (*self == *other),
    {
        self.kind == other.kind && bytes32_eq(&self.key, &other.key)
    }
}

} // verus!
