use stellar_rec::ids::Address;
use stellar_rec::retirement::{compute_receipt_id, ClaimData, RetirementContract, RetirementError};

fn addr(seed: u8) -> Address {
    Address::account([seed; 32])
}

fn make_claim_data() -> ClaimData {
    ClaimData {
        period_start: 1700000000,
        period_end: 1702592000,
        purpose: b"Scope 2 market-based GHG accounting".to_vec(),
        jurisdiction: b"US / RE100".to_vec(),
    }
}

fn setup() -> RetirementContract {
    let mut client = RetirementContract::new(addr(1));
    client.set_rec_token(Address::contract([2; 32]));
    client
}

fn retire_as(client: &mut RetirementContract, retirer: Address, ids: Vec<u64>, claim: ClaimData) -> Result<[u8; 32], RetirementError> {
    let owners = vec![retirer; ids.len()];
    client.retire(retirer, ids, claim, &owners, 1_000, 10).map(|r| r.receipt_id)
}

#[test]
fn test_retire_single_token() {
    let mut client = setup();
    let retirer = addr(10);
    let receipt_id = retire_as(&mut client, retirer, vec![1], make_claim_data()).unwrap();
    let receipt = client.get_retirement_receipt(receipt_id).unwrap();

    assert_eq!(receipt.retirer, retirer);
    assert_eq!(receipt.total_mwh, 1);
    assert_eq!(receipt.token_ids.len(), 1);
    assert_eq!(receipt.token_ids[0], 1);
    assert_eq!(receipt.timestamp, 1_000);
    assert_eq!(receipt.block_height, 10);
}

#[test]
fn test_retire_multiple_tokens() {
    let mut client = setup();
    let retirer = addr(10);
    let receipt_id = retire_as(&mut client, retirer, vec![1, 2, 3], make_claim_data()).unwrap();
    let receipt = client.get_retirement_receipt(receipt_id).unwrap();

    assert_eq!(receipt.total_mwh, 3);
    assert_eq!(receipt.token_ids.len(), 3);
}

#[test]
fn test_verify_retirement() {
    let mut client = setup();
    let retirer = addr(10);
    let receipt_id = retire_as(&mut client, retirer, vec![1], make_claim_data()).unwrap();

    assert_eq!(client.verify_retirement(1), Some(receipt_id));
    assert_eq!(client.verify_retirement(999), None);
}

#[test]
fn test_retire_empty_token_list() {
    let mut client = setup();
    let e = retire_as(&mut client, addr(10), Vec::new(), make_claim_data()).unwrap_err();
    assert_eq!(e, RetirementError::NoTokensProvided);
    assert_eq!(e.code(), 6);
}

#[test]
fn test_retire_invalid_claim_period() {
    let mut client = setup();
    let claim = ClaimData { period_start: 100, period_end: 50, purpose: Vec::new(), jurisdiction: Vec::new() };
    let e = retire_as(&mut client, addr(10), vec![1], claim).unwrap_err();
    assert_eq!(e, RetirementError::InvalidClaimData);
    assert_eq!(e.code(), 4);
}

#[test]
fn test_get_nonexistent_receipt() {
    let client = RetirementContract::new(addr(1));
    let e = client.get_retirement_receipt([0u8; 32]).unwrap_err();
    assert_eq!(e, RetirementError::ReceiptNotFound);
    assert_eq!(e.code(), 5);
}

#[test]
fn test_prove_claim() {
    let mut client = setup();
    let retirer = addr(10);
    let other = addr(11);
    retire_as(&mut client, retirer, vec![1, 2], make_claim_data()).unwrap();

    let results = client.prove_claim(retirer, 0, 9999999999);
    assert_eq!(results.len(), 1);
    assert_eq!(results[0].retirer, retirer);

    let other_results = client.prove_claim(other, 0, 9999999999);
    assert_eq!(other_results.len(), 0);
}

#[test]
fn test_retire_duplicate_token_rejected() {
    let mut client = setup();
    client.set_retirement_fee(0).unwrap();
    let e = retire_as(&mut client, addr(10), vec![1, 1], make_claim_data()).unwrap_err();
    assert_eq!(e, RetirementError::DuplicateToken);
    assert_eq!(e.code(), 9);
}

#[test]
fn test_retire_while_paused_rejected() {
    let mut client = setup();
    client.set_retirement_fee(0).unwrap();
    client.pause();
    let e = retire_as(&mut client, addr(10), vec![1], make_claim_data()).unwrap_err();
    assert_eq!(e, RetirementError::ContractPaused);
    assert_eq!(e.code(), 10);
}

#[test]
fn test_retirement_pause_resume() {
    let mut client = RetirementContract::new(addr(1));
    assert!(!client.paused());
    client.pause();
    assert!(client.paused());
    client.resume();
    assert!(!client.paused());
}

#[test]
fn test_test_admin_functions() {
    let admin = addr(1);
    let new_admin = addr(2);
    let mut client = RetirementContract::new(admin);

    assert_eq!(client.admin(), admin);
    client.transfer_admin(new_admin);
    assert_eq!(client.admin(), new_admin);

    let fee = 5_000_000i128;
    assert_eq!(client.set_retirement_fee(fee), Ok(()));
    assert_eq!(client.retirement_fee(), fee);
}

#[test]
fn test_retirement_pause_blocks_retiring() {
    let mut client = RetirementContract::new(addr(1));
    client.pause();
    let e = retire_as(&mut client, addr(10), vec![1], make_claim_data()).unwrap_err();
    assert_eq!(e.code(), 10);
}

#[test]
fn test_set_verifier_and_verify_retirement() {
    let mut client = setup();
    let verifier = addr(30);
    assert!(!client.is_verifier(verifier));
    client.set_verifier(verifier, true);
    assert!(client.is_verifier(verifier));
    client.set_verifier(verifier, false);
    assert!(!client.is_verifier(verifier));
}

// ---------- further cases ----------

#[test]
fn receipt_ids_are_numbered_from_one() {
    assert_eq!(compute_receipt_id(1), {
        let mut a = [0u8; 32];
        a[31] = 1;
        a
    });
    let id = compute_receipt_id(0x0102_0304_0506_0708);
    assert_eq!(&id[0..24], &[0u8; 24][..]);
    assert_eq!(&id[24..32], &[1, 2, 3, 4, 5, 6, 7, 8][..]);

    let mut client = setup();
    let r1 = retire_as(&mut client, addr(10), vec![1], make_claim_data()).unwrap();
    let r2 = retire_as(&mut client, addr(10), vec![2], make_claim_data()).unwrap();
    assert_eq!(r1, compute_receipt_id(1));
    assert_eq!(r2, compute_receipt_id(2));
    assert_ne!(r1, r2);
}

#[test]
fn a_token_is_retired_at_most_once() {
    let mut client = setup();
    let first = retire_as(&mut client, addr(10), vec![5, 6], make_claim_data()).unwrap();
    let e = retire_as(&mut client, addr(11), vec![7, 6], make_claim_data()).unwrap_err();
    assert_eq!(e, RetirementError::AlreadyRetired);
    assert_eq!(e.code(), 2);
    // The refused retirement records nothing.
    assert_eq!(client.verify_retirement(7), None);
    assert_eq!(client.verify_retirement(6), Some(first));
    let receipt = client.get_retirement_receipt(first).unwrap();
    assert!(receipt.token_ids.contains(&6));
}

#[test]
fn only_the_owner_may_retire() {
    let mut client = setup();
    let owners = vec![addr(10), addr(12)];
    let e = client.retire(addr(10), vec![1, 2], make_claim_data(), &owners, 0, 0).unwrap_err();
    assert_eq!(e, RetirementError::NotTokenOwner);
    assert_eq!(e.code(), 7);
    assert_eq!(client.verify_retirement(1), None);
    assert_eq!(RetirementContract::owner_check(&addr(1), &addr(1)), Ok(()));
    assert_eq!(RetirementContract::owner_check(&addr(1), &addr(2)), Err(RetirementError::NotTokenOwner));
}

#[test]
fn token_registry_must_be_set() {
    let mut client = RetirementContract::new(addr(1));
    let e = retire_as(&mut client, addr(10), vec![1], make_claim_data()).unwrap_err();
    assert_eq!(e, RetirementError::RecTokenNotSet);
    assert_eq!(e.code(), 8);
}

#[test]
fn zero_claim_bounds_are_invalid() {
    let mut client = setup();
    let claim = ClaimData { period_start: 0, period_end: 50, purpose: Vec::new(), jurisdiction: Vec::new() };
    assert_eq!(retire_as(&mut client, addr(10), vec![1], claim).unwrap_err(), RetirementError::InvalidClaimData);
    let claim = ClaimData { period_start: 50, period_end: 50, purpose: Vec::new(), jurisdiction: Vec::new() };
    assert!(retire_as(&mut client, addr(10), vec![1], claim).is_ok());
}

#[test]
fn fee_is_charged_only_when_configured() {
    let mut client = setup();
    let owners = vec![addr(10)];
    let r = client.retire(addr(10), vec![1], make_claim_data(), &owners, 0, 0).unwrap();
    assert_eq!(r.fee, None);
    client.set_usdc_token(Address::contract([3; 32]));
    client.set_fee_vault(addr(4));
    assert_eq!(client.retirement_fee(), 2_000_000);
    let r = client.retire(addr(10), vec![2], make_claim_data(), &owners, 0, 0).unwrap();
    assert_eq!(r.fee, Some(2_000_000));
    client.set_retirement_fee(0).unwrap();
    let r = client.retire(addr(10), vec![3], make_claim_data(), &owners, 0, 0).unwrap();
    assert_eq!(r.fee, None);
    assert_eq!(client.set_retirement_fee(-1), Err(RetirementError::InvalidClaimData));
    assert_eq!(client.retirement_fee(), 0);
}

#[test]
fn prove_claim_filters_by_period() {
    let mut client = setup();
    let w = addr(10);
    let early = ClaimData { period_start: 10, period_end: 20, purpose: Vec::new(), jurisdiction: Vec::new() };
    let late = ClaimData { period_start: 30, period_end: 40, purpose: Vec::new(), jurisdiction: Vec::new() };
    retire_as(&mut client, w, vec![1], early).unwrap();
    retire_as(&mut client, w, vec![2], late).unwrap();
    assert_eq!(client.prove_claim(w, 0, 25).len(), 1);
    assert_eq!(client.prove_claim(w, 0, 25)[0].token_ids, vec![1]);
    assert_eq!(client.prove_claim(w, 25, 50)[0].token_ids, vec![2]);
    assert_eq!(client.prove_claim(w, 10, 40).len(), 2);
    assert_eq!(client.prove_claim(w, 11, 39).len(), 0);
}

#[test]
fn receipt_keeps_the_claim() {
    let mut client = setup();
    let id = retire_as(&mut client, addr(10), vec![4], make_claim_data()).unwrap();
    let receipt = client.get_retirement_receipt(id).unwrap();
    assert_eq!(receipt.receipt_id, id);
    assert_eq!(receipt.claim, make_claim_data());
    assert_eq!(receipt.claim.jurisdiction, b"US / RE100".to_vec());
}

#[test]
fn precheck_and_token_precheck() {
    let mut client = setup();
    assert_eq!(client.retire_precheck(0, &make_claim_data()), Err(RetirementError::NoTokensProvided));
    assert_eq!(client.retire_precheck(1, &make_claim_data()), Ok(()));
    retire_as(&mut client, addr(10), vec![9], make_claim_data()).unwrap();
    assert_eq!(client.token_precheck(&vec![1, 9], 1), Err(RetirementError::AlreadyRetired));
    assert_eq!(client.token_precheck(&vec![1, 1], 1), Err(RetirementError::DuplicateToken));
    assert_eq!(client.token_precheck(&vec![1, 2], 1), Ok(()));
}

#[test]
fn verifier_set_is_idempotent() {
    let mut client = setup();
    client.set_verifier(addr(5), true);
    client.set_verifier(addr(5), true);
    client.set_verifier(addr(6), true);
    client.set_verifier(addr(5), false);
    assert!(!client.is_verifier(addr(5)));
    assert!(client.is_verifier(addr(6)));
    client.set_verifier(addr(7), false);
    assert!(!client.is_verifier(addr(7)));
    assert_eq!(RetirementError::VerifierAlreadySet.code(), 11);
    assert_eq!(RetirementError::VerifierNotFound.code(), 12);
    assert_eq!(RetirementError::Unauthorized.code(), 1);
    assert_eq!(RetirementError::TokenNotFound.code(), 3);
}

#[test]
fn retirement_settings_round_trip() {
    let mut client = RetirementContract::new(addr(1));
    assert_eq!(client.rec_token(), None);
    assert_eq!(client.usdc_token(), None);
    assert_eq!(client.fee_vault(), None);
    client.set_rec_token(addr(2));
    client.set_usdc_token(addr(3));
    client.set_fee_vault(addr(4));
    assert_eq!(client.rec_token(), Some(addr(2)));
    assert_eq!(client.usdc_token(), Some(addr(3)));
    assert_eq!(client.fee_vault(), Some(addr(4)));
}
