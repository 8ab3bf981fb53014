use stellar_rec::ids::Address;
use stellar_rec::rec_token::{FuelType, RecState, RecTokenContract, RecTokenError};

fn addr(seed: u8) -> Address {
    Address::account([seed; 32])
}

fn asset_id() -> [u8; 32] {
    [0; 32]
}

struct Setup {
    client: RecTokenContract,
    minter: Address,
    receiver: Address,
}

fn setup() -> Setup {
    let admin = addr(1);
    let minter = addr(2);
    let receiver = addr(3);
    let mut client = RecTokenContract::new(admin);
    client.authorize_minter(minter);
    Setup { client, minter, receiver }
}

fn mint_one(client: &mut RecTokenContract, to: Address, ts: u64) -> u64 {
    client
        .mint(to, asset_id(), ts, FuelType::Solar, 2026, Vec::new())
        .unwrap()
}

#[test]
fn test_mint_increases_supply() {
    let mut s = setup();
    let token_id = mint_one(&mut s.client, s.receiver, 1234567890);

    assert_eq!(s.client.total_supply(), 1);
    assert_eq!(s.client.balance_of(s.receiver), 1);
    assert_eq!(s.client.owner_of(token_id), Ok(s.receiver));
}

#[test]
fn test_mint_multiple_tokens() {
    let mut s = setup();
    let receiver1 = addr(10);
    let receiver2 = addr(11);

    let id1 = s
        .client
        .mint(receiver1, asset_id(), 100, FuelType::Wind, 2025, Vec::new())
        .unwrap();
    let id2 = s
        .client
        .mint(receiver2, asset_id(), 200, FuelType::Hydro, 2026, Vec::new())
        .unwrap();

    assert_eq!(id1, 1);
    assert_eq!(id2, 2);
    assert_eq!(s.client.total_supply(), 2);
    assert_eq!(s.client.balance_of(receiver1), 1);
    assert_eq!(s.client.balance_of(receiver2), 1);
}

#[test]
fn test_transfer_changes_owner() {
    let mut s = setup();
    let new_owner = addr(12);
    let token_id = mint_one(&mut s.client, s.receiver, 1234567890);

    assert_eq!(s.client.transfer(s.receiver, new_owner, token_id), Ok(()));

    assert_eq!(s.client.owner_of(token_id), Ok(new_owner));
    assert_eq!(s.client.balance_of(s.receiver), 0);
    assert_eq!(s.client.balance_of(new_owner), 1);
}

#[test]
fn test_burn_retires_token() {
    let mut s = setup();
    let token_id = mint_one(&mut s.client, s.receiver, 1234567890);

    assert_eq!(s.client.burn(s.receiver, token_id, 5_000), Ok(()));

    let meta = s.client.token_metadata(token_id).unwrap();
    assert_eq!(meta.state, RecState::Retired);
    assert!(meta.retired_at.is_some());
    assert_eq!(meta.retired_at, Some(5_000));
    assert_eq!(s.client.total_supply(), 0);
    assert_eq!(s.client.balance_of(s.receiver), 0);
}

#[test]
fn test_double_burn_rejected() {
    let mut s = setup();
    let token_id = mint_one(&mut s.client, s.receiver, 1234567890);

    assert_eq!(s.client.burn(s.receiver, token_id, 1), Ok(()));
    let e = s.client.burn(s.receiver, token_id, 2).unwrap_err();
    assert_eq!(e, RecTokenError::RecAlreadyRetired);
    assert_eq!(e.code(), 2);
}

#[test]
fn test_non_owner_transfer_rejected() {
    let mut s = setup();
    let other = addr(13);
    let token_id = mint_one(&mut s.client, s.receiver, 1234567890);

    let e = s.client.transfer(other, s.receiver, token_id).unwrap_err();
    assert_eq!(e, RecTokenError::Unauthorized);
    assert_eq!(e.code(), 1);
    assert_eq!(s.client.owner_of(token_id), Ok(s.receiver));
}

#[test]
fn test_burn_nonexistent_token() {
    let mut s = setup();
    let caller = addr(14);
    let e = s.client.burn(caller, 999, 1).unwrap_err();
    assert_eq!(e, RecTokenError::TokenNotFound);
    assert_eq!(e.code(), 4);
}

#[test]
fn test_set_metadata_uri() {
    let mut s = setup();
    let token_id = mint_one(&mut s.client, s.receiver, 1234567890);

    let new_uri = b"https://example.com/new-metadata".to_vec();
    assert_eq!(s.client.set_metadata_uri(token_id, new_uri.clone()), Ok(()));

    let meta = s.client.token_metadata(token_id).unwrap();
    assert_eq!(meta.metadata_uri, new_uri);
    assert_eq!(s.client.token_uri(token_id), Ok(new_uri));
}

#[test]
fn test_tokens_by_owner_pagination() {
    let mut s = setup();
    let owner = addr(20);
    for i in 0..10u64 {
        s.client
            .mint(owner, asset_id(), 1000 + i, FuelType::Wind, 2026, Vec::new())
            .unwrap();
    }

    let page1 = s.client.tokens_by_owner(owner, 0, 3);
    assert_eq!(page1.len(), 3);
    assert_eq!(page1[0], 1);
    assert_eq!(page1[1], 2);
    assert_eq!(page1[2], 3);

    let page2 = s.client.tokens_by_owner(owner, 3, 3);
    assert_eq!(page2.len(), 3);
    assert_eq!(page2[0], 4);
    assert_eq!(page2[1], 5);
    assert_eq!(page2[2], 6);

    let page_all = s.client.tokens_by_owner(owner, 0, 20);
    assert_eq!(page_all.len(), 10);

    let other = addr(21);
    let empty = s.client.tokens_by_owner(other, 0, 10);
    assert_eq!(empty.len(), 0);
}

#[test]
fn test_pause_resume() {
    let mut client = RecTokenContract::new(addr(1));
    assert!(!client.paused());
    client.pause();
    assert!(client.paused());
    client.resume();
    assert!(!client.paused());
}

#[test]
fn test_mint_while_paused_rejected() {
    let mut s = setup();
    s.client.pause();
    let e = s
        .client
        .mint(s.receiver, asset_id(), 1234567890, FuelType::Solar, 2026, Vec::new())
        .unwrap_err();
    assert_eq!(e, RecTokenError::ContractPaused);
    assert_eq!(e.code(), 6);
    assert_eq!(s.client.total_supply(), 0);
}

#[test]
fn test_transfer_while_paused_rejected() {
    let mut s = setup();
    let new_owner = addr(15);
    let token_id = mint_one(&mut s.client, s.receiver, 1234567890);

    s.client.pause();
    let e = s.client.transfer(s.receiver, new_owner, token_id).unwrap_err();
    assert_eq!(e, RecTokenError::ContractPaused);
    assert_eq!(e.code(), 6);
}

#[test]
fn test_transfer_retired_token_rejected() {
    let mut s = setup();
    let token_id = mint_one(&mut s.client, s.receiver, 1234567890);

    assert_eq!(s.client.burn(s.receiver, token_id, 7), Ok(()));

    let new_owner = addr(16);
    let e = s.client.transfer(s.receiver, new_owner, token_id).unwrap_err();
    assert_eq!(e, RecTokenError::RecAlreadyRetired);
    assert_eq!(e.code(), 2);
}

#[test]
fn test_admin_functions() {
    let admin = addr(1);
    let new_admin = addr(2);
    let mut client = RecTokenContract::new(admin);
    assert_eq!(client.admin(), admin);
    client.transfer_admin(new_admin);
    assert_eq!(client.admin(), new_admin);
}

#[test]
fn test_burn_unauthorized_caller_rejected() {
    let mut s = setup();
    let owner = addr(30);
    let attacker = addr(31);
    let token_id = mint_one(&mut s.client, owner, 1_704_067_200);

    let e = s.client.burn(attacker, token_id, 1).unwrap_err();
    assert_eq!(e, RecTokenError::Unauthorized);
    assert_eq!(s.client.balance_of(owner), 1);
}

#[test]
fn test_rec_token_pause_blocks_minting() {
    let mut s = setup();
    s.client.pause();
    let e = s
        .client
        .mint(s.receiver, [1; 32], 1_704_067_200, FuelType::Solar, 2026, b"ipfs://stellar-rec".to_vec())
        .unwrap_err();
    assert_eq!(e.code(), 6);
}

// ---------- further cases ----------

#[test]
fn mint_without_minter_is_unauthorized() {
    let mut client = RecTokenContract::new(addr(1));
    let e = client
        .mint(addr(3), asset_id(), 1, FuelType::Solar, 2026, Vec::new())
        .unwrap_err();
    assert_eq!(e, RecTokenError::Unauthorized);
    assert_eq!(client.total_supply(), 0);
}

#[test]
fn duplicate_mint_of_same_hour_is_rejected() {
    let mut s = setup();
    mint_one(&mut s.client, s.receiver, 42);
    let e = s
        .client
        .mint(addr(9), asset_id(), 42, FuelType::Other, 2027, Vec::new())
        .unwrap_err();
    assert_eq!(e, RecTokenError::DuplicateMint);
    assert_eq!(e.code(), 5);
    // A different hour of the same asset mints.
    assert_eq!(mint_one(&mut s.client, s.receiver, 43), 2);
}

#[test]
fn lookups_of_unknown_tokens_fail() {
    let s = setup();
    assert_eq!(s.client.owner_of(1), Err(RecTokenError::TokenNotFound));
    assert_eq!(s.client.token_uri(0), Err(RecTokenError::TokenNotFound));
    assert!(s.client.token_metadata(5).is_err());
    let mut c = s.client;
    assert_eq!(c.set_metadata_uri(3, Vec::new()), Err(RecTokenError::TokenNotFound));
}

#[test]
fn insufficient_balance_code() {
    assert_eq!(RecTokenError::InsufficientBalance.code(), 3);
}

#[test]
fn authorized_burner_may_burn() {
    let mut s = setup();
    let burner = addr(40);
    let token_id = mint_one(&mut s.client, s.receiver, 1);
    s.client.authorize_burner(burner);
    assert_eq!(s.client.authorized_burner(), Some(burner));
    assert_eq!(s.client.burn(burner, token_id, 9), Ok(()));
    assert_eq!(s.client.balance_of(s.receiver), 0);
    // The burned token keeps its owner.
    assert_eq!(s.client.owner_of(token_id), Ok(s.receiver));
    s.client.revoke_burner();
    assert_eq!(s.client.authorized_burner(), None);
}

#[test]
fn revoked_minter_cannot_mint() {
    let mut s = setup();
    assert_eq!(s.client.authorized_minter(), Some(s.minter));
    s.client.revoke_minter();
    assert_eq!(s.client.authorized_minter(), None);
    let e = s
        .client
        .mint(s.receiver, asset_id(), 1, FuelType::Solar, 2026, Vec::new())
        .unwrap_err();
    assert_eq!(e, RecTokenError::Unauthorized);
}

#[test]
fn transfer_to_self_keeps_balance() {
    let mut s = setup();
    let token_id = mint_one(&mut s.client, s.receiver, 1);
    assert_eq!(s.client.transfer(s.receiver, s.receiver, token_id), Ok(()));
    assert_eq!(s.client.balance_of(s.receiver), 1);
    assert_eq!(s.client.total_supply(), 1);
}

#[test]
fn listing_matches_balance_after_moves() {
    let mut s = setup();
    let a = addr(50);
    let b = addr(51);
    for ts in 0..5u64 {
        mint_one(&mut s.client, a, ts);
    }
    s.client.transfer(a, b, 2).unwrap();
    s.client.burn(a, 4, 1).unwrap();
    let listed_a = s.client.tokens_by_owner(a, 0, 100);
    let listed_b = s.client.tokens_by_owner(b, 0, 100);
    assert_eq!(listed_a, vec![1, 3, 5]);
    assert_eq!(listed_b, vec![2]);
    assert_eq!(listed_a.len() as u64, s.client.balance_of(a));
    assert_eq!(listed_b.len() as u64, s.client.balance_of(b));
    assert_eq!(s.client.total_supply(), 4);
    // A page past the end is empty; a zero limit gives nothing.
    assert!(s.client.tokens_by_owner(a, 3, 10).is_empty());
    assert!(s.client.tokens_by_owner(a, 0, 0).is_empty());
}

#[test]
fn metadata_of_minted_token_is_exact() {
    let mut s = setup();
    let id = s
        .client
        .mint(s.receiver, [7; 32], 99, FuelType::Hydro, 2030, b"uri".to_vec())
        .unwrap();
    let m = s.client.token_metadata(id).unwrap();
    assert_eq!(m.token_id, 1);
    assert_eq!(m.asset_id, [7; 32]);
    assert_eq!(m.generation_timestamp, 99);
    assert_eq!(m.fuel_type, FuelType::Hydro);
    assert_eq!(m.vintage_year, 2030);
    assert_eq!(m.metadata_uri, b"uri".to_vec());
    assert_eq!(m.state, RecState::Active);
    assert_eq!(m.retired_at, None);
    assert_eq!(m.retirement_receipt, None);
}

#[test]
fn a_generation_stays_minted_after_transfer_and_burn() {
    let mut s = setup();
    let id = mint_one(&mut s.client, s.receiver, 7);
    s.client.transfer(s.receiver, addr(8), id).unwrap();
    let e = s.client.mint(addr(9), asset_id(), 7, FuelType::Wind, 2026, Vec::new()).unwrap_err();
    assert_eq!(e, RecTokenError::DuplicateMint);
    s.client.burn(addr(8), id, 100).unwrap();
    let e = s.client.mint(addr(9), asset_id(), 7, FuelType::Wind, 2026, Vec::new()).unwrap_err();
    assert_eq!(e, RecTokenError::DuplicateMint);
    assert_eq!(s.client.total_supply(), 0);
}
