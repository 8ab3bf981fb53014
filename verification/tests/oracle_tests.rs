use soroban_sdk::Env;
use stellar_rec::ids::Address;
use stellar_rec::oracle::{fuel_from_code, reading_hash, reading_message, OracleError, OracleHandlerContract};
use stellar_rec::rec_token::FuelType;

fn addr(seed: u8) -> Address {
    Address::account([seed; 32])
}

fn key(val: u8) -> [u8; 32] {
    let mut arr = [0u8; 32];
    arr[0] = val;
    arr
}

fn uri() -> Vec<u8> {
    b"https://oracle.example.com".to_vec()
}

fn setup() -> OracleHandlerContract {
    OracleHandlerContract::new(addr(1))
}

/// A handler with a bonded attestor `pk` and meter `key(1)` of 1000 MW.
fn bonded(pk: [u8; 32]) -> OracleHandlerContract {
    let mut client = setup();
    client.set_rec_token(Address::contract([2; 32]));
    client.set_usdc_token(Address::contract([3; 32]));
    client.register_oracle(pk, uri(), addr(4), 0).unwrap();
    client.deposit_bond(pk, 100_000_000_000).unwrap();
    client.set_meter(key(1), addr(5), key(42), 1000);
    client
}

#[test]
fn test_register_oracle() {
    let mut client = setup();
    let operator = addr(10);
    let pubkey = key(1);
    assert_eq!(client.register_oracle(pubkey, uri(), operator, 77), Ok(()));

    assert_eq!(client.oracle_count(), 1);

    let node = client.get_oracle(pubkey).unwrap();
    assert_eq!(node.pubkey, pubkey);
    assert_eq!(node.operator, operator);
    assert_eq!(node.stake, 0);
    assert_eq!(node.rewards, 0);
    assert_eq!(node.reputation, 0);
    assert!(!node.active);
    assert_eq!(node.registered_at, 77);
    assert_eq!(node.uri, uri());
}

#[test]
fn test_revoke_oracle() {
    let mut client = setup();
    let pubkey = key(1);
    client.register_oracle(pubkey, uri(), addr(10), 0).unwrap();
    assert_eq!(client.revoke_oracle(pubkey), Ok(()));

    let node = client.get_oracle(pubkey).unwrap();
    assert!(!node.active);
    assert_eq!(client.revoke_oracle(key(2)), Err(OracleError::OracleNotFound));
    // A bond cannot bring a revoked attestor back.
    assert_eq!(client.deposit_bond(pubkey, 100_000_000_000), Ok(()));
    let node = client.get_oracle(pubkey).unwrap();
    assert_eq!(node.stake, 100_000_000_000);
    assert!(!node.active);
}

#[test]
fn test_set_threshold() {
    let mut client = setup();
    assert_eq!(client.set_threshold(3, 5), Ok(()));
    let (n, d) = client.threshold();
    assert_eq!(n, 3);
    assert_eq!(d, 5);
}

#[test]
fn test_test_pause_resume() {
    let mut client = setup();
    assert!(!client.paused());
    client.pause();
    assert!(client.paused());
    client.resume();
    assert!(!client.paused());
}

#[test]
fn test_set_meter() {
    let mut client = setup();
    let meter_id = key(1);
    let receiver = addr(11);
    let asset_id = key(42);
    client.set_meter(meter_id, receiver, asset_id, 100);

    let binding = client.get_meter(meter_id).unwrap();
    assert_eq!(binding.receiver, receiver);
    assert_eq!(binding.asset_id, asset_id);
    assert_eq!(binding.capacity_mw, 100);
}

#[test]
fn test_duplicate_oracle_rejected() {
    let mut client = setup();
    let pubkey = key(1);
    client.register_oracle(pubkey, uri(), addr(10), 0).unwrap();
    let e = client.register_oracle(pubkey, uri(), addr(10), 0).unwrap_err();
    assert_eq!(e, OracleError::OracleAlreadyRegistered);
    assert_eq!(e.code(), 2);
    assert_eq!(client.oracle_count(), 1);
}

#[test]
fn test_get_nonexistent_oracle() {
    let client = setup();
    let e = client.get_oracle(key(99)).unwrap_err();
    assert_eq!(e, OracleError::OracleNotFound);
    assert_eq!(e.code(), 3);
}

#[test]
fn test_deposit_bond_activates_oracle() {
    let mut client = setup();
    client.set_usdc_token(Address::contract([3; 32]));
    let pubkey = key(1);
    client.register_oracle(pubkey, uri(), addr(10), 0).unwrap();

    assert!(!client.get_oracle(pubkey).unwrap().active);

    assert_eq!(client.deposit_bond(pubkey, 100_000_000_000), Ok(()));

    let node = client.get_oracle(pubkey).unwrap();
    assert_eq!(node.stake, 100_000_000_000);
    assert!(node.active);
}

#[test]
fn test_withdraw_bond_deactivates_oracle() {
    let mut client = setup();
    let pubkey = key(1);
    client.register_oracle(pubkey, uri(), addr(10), 0).unwrap();

    client.deposit_bond(pubkey, 100_000_000_000).unwrap();
    assert!(client.get_oracle(pubkey).unwrap().active);

    assert_eq!(client.withdraw_bond(pubkey, 100_000_000_000), Ok(()));

    let node = client.get_oracle(pubkey).unwrap();
    assert_eq!(node.stake, 0);
    assert!(!node.active);
}

#[test]
fn test_submit_reading_with_bond() {
    let env = Env::default();
    let pubkey = key(9);
    let mut client = bonded(pubkey);
    let meter_id = key(1);
    let mwh = 500u64;
    let timestamp = 123456789u64;
    let h = reading_hash(&env, &meter_id, mwh, timestamp);

    let binding = client.check_reading(meter_id, mwh, &vec![pubkey], h).unwrap();
    assert_eq!(binding.receiver, addr(5));
    assert_eq!(binding.asset_id, key(42));

    // The reading is recorded under the digest of its signed bytes.
    assert_eq!(client.submit_reading(&env, meter_id, mwh, timestamp, vec![pubkey], 123), Ok(h));
    // The same reading cannot be submitted twice.
    assert_eq!(
        client.submit_reading(&env, meter_id, mwh, timestamp, vec![pubkey], 124),
        Err(OracleError::Unauthorized)
    );
    assert_eq!(
        client.record_reading(meter_id, mwh, timestamp, vec![pubkey], h, 124),
        Err(OracleError::Unauthorized)
    );
}

#[test]
fn test_submit_reading_with_low_bond_rejected() {
    let env = Env::default();
    let pubkey = key(9);
    let mut client = bonded(pubkey);
    client.set_minimum_bond(200_000_000_000);
    let meter_id = key(1);
    let h = reading_hash(&env, &meter_id, 500, 123456789);

    let e = client.record_reading(meter_id, 500, 123456789, vec![pubkey], h, 1).unwrap_err();
    assert_eq!(e, OracleError::BondTooLow);
    assert_eq!(e.code(), 11);
}

#[test]
fn test_dispute_and_slashing() {
    let env = Env::default();
    let pubkey = key(9);
    let mut client = bonded(pubkey);
    let meter_id = key(1);
    let h = reading_hash(&env, &meter_id, 500, 123456789);
    client.record_reading(meter_id, 500, 123456789, vec![pubkey], h, 1).unwrap();

    assert_eq!(client.dispute(h), Ok(()));
    let slashed = client.resolve_dispute(h, false).unwrap();
    assert_eq!(slashed, vec![100_000_000_000]);

    let node = client.get_oracle(pubkey).unwrap();
    assert_eq!(node.stake, 0, "Stake should be slashed to 0");
    assert!(!node.active, "Oracle should be deactivated after slashing");
    assert_eq!(node.reputation, 0u32.saturating_sub(10), "Reputation should be reduced");
}

#[test]
fn test_dispute_honest_outcome_boosts_reputation() {
    let env = Env::default();
    let pubkey = key(9);
    let mut client = bonded(pubkey);
    let meter_id = key(1);
    let h = reading_hash(&env, &meter_id, 500, 123456789);
    client.record_reading(meter_id, 500, 123456789, vec![pubkey], h, 1).unwrap();

    client.dispute(h).unwrap();
    let slashed = client.resolve_dispute(h, true).unwrap();
    assert!(slashed.is_empty());

    let node = client.get_oracle(pubkey).unwrap();
    assert_eq!(node.stake, 100_000_000_000, "Stake should remain intact");
    assert_eq!(node.reputation, 5, "Reputation should be boosted by 5");
}

#[test]
fn test_claim_rewards_direct() {
    let env = Env::default();
    let mut client = setup();
    client.set_usdc_token(Address::contract([3; 32]));
    let first = key(1);
    client.register_oracle(first, uri(), addr(10), 0).unwrap();
    client.set_rec_token(Address::contract([2; 32]));
    client.deposit_bond(first, 100_000_000_000).unwrap();
    client.fund_reward_pool(10_000_000_000);
    client.set_meter(key(1), addr(11), key(42), 1000);

    let real = key(77);
    client.register_oracle(real, uri(), addr(12), 0).unwrap();
    client.deposit_bond(real, 100_000_000_000).unwrap();

    let h = reading_hash(&env, &key(1), 500, 123456789);
    client.record_reading(key(1), 500, 123456789, vec![real], h, 1).unwrap();

    let node = client.get_oracle(real).unwrap();
    assert!(node.rewards > 0, "Oracle should have accumulated rewards");
    assert_eq!(node.rewards, 1_000_000);
    assert_eq!(node.reputation, 1);
    assert_eq!(client.reward_pool(), 10_000_000_000 - 1_000_000);

    assert_eq!(client.claim_rewards(real), Ok(1_000_000));

    let node_after = client.get_oracle(real).unwrap();
    assert_eq!(node_after.rewards, 0, "Rewards should be zero after claim");
    assert_eq!(client.claim_rewards(real), Err(OracleError::NoRewardsToClaim));
    assert_eq!(OracleError::NoRewardsToClaim.code(), 13);
}

#[test]
fn test_set_usdc_token_and_minimum_bond() {
    let mut client = setup();
    let usdc_token = addr(20);
    client.set_usdc_token(usdc_token);
    assert_eq!(client.usdc_token(), Some(usdc_token));

    assert_eq!(client.minimum_bond(), 100_000_000_000);

    client.set_minimum_bond(200_000_000_000);
    assert_eq!(client.minimum_bond(), 200_000_000_000);
}

#[test]
fn test_set_reward_per_reading() {
    let mut client = setup();
    assert_eq!(client.reward_per_reading(), 1_000_000);

    client.set_reward_per_reading(2_000_000);
    assert_eq!(client.reward_per_reading(), 2_000_000);
}

#[test]
fn test_submit_while_paused() {
    let env = Env::default();
    let mut client = setup();
    client.pause();
    let e = client.submit_reading(&env, key(1), 500, 123, Vec::new(), 1).unwrap_err();
    assert_eq!(e, OracleError::ContractPaused);
    assert_eq!(e.code(), 10);
}

#[test]
fn test_submit_below_threshold_rejected() {
    let env = Env::default();
    let mut client = setup();
    client.set_threshold(2, 2).unwrap();
    client.set_meter(key(1), addr(11), key(1), 1000);
    let h = reading_hash(&env, &key(1), 500, 123);
    let e = client.record_reading(key(1), 500, 123, vec![key(1)], h, 1).unwrap_err();
    assert_eq!(e, OracleError::ThresholdNotMet);
    assert_eq!(e.code(), 4);
}

#[test]
fn test_oracle_pause_blocks_minting() {
    let env = Env::default();
    let pk = key(7);
    let mut client = bonded(pk);
    client.pause();
    let h = reading_hash(&env, &key(1), 1, 1_704_067_200);
    let e = client.check_reading(key(1), 1, &vec![pk], h).unwrap_err();
    assert_eq!(e.code(), 10);
}

// ---------- further cases ----------

#[test]
fn reading_hash_is_sha256_of_the_signed_bytes() {
    let env = Env::default();
    let msg = reading_message(&key(1), 500, 123456789);
    assert_eq!(msg.len(), 48);
    assert_eq!(&msg[0..32], &key(1)[..]);
    assert_eq!(&msg[32..40], &500u64.to_be_bytes()[..]);
    assert_eq!(&msg[40..48], &123456789u64.to_be_bytes()[..]);
    let h = reading_hash(&env, &key(1), 500, 123456789);
    let expected: [u8; 32] = [
        226, 179, 13, 92, 179, 242, 193, 86, 94, 44, 217, 112, 179, 42, 10, 40, 60, 188, 160, 89, 84, 5, 137,
        104, 118, 223, 15, 145, 134, 166, 29, 117,
    ];
    assert_eq!(h, expected);
}

#[test]
fn fuel_codes() {
    assert_eq!(fuel_from_code(0), FuelType::Solar);
    assert_eq!(fuel_from_code(1), FuelType::Wind);
    assert_eq!(fuel_from_code(2), FuelType::Hydro);
    assert_eq!(fuel_from_code(3), FuelType::Other);
    assert_eq!(fuel_from_code(u32::MAX), FuelType::Other);
}

#[test]
fn reading_checks_in_order() {
    let env = Env::default();
    let pk = key(9);
    let mut client = bonded(pk);
    let h = reading_hash(&env, &key(1), 500, 1);
    // Unknown meter.
    assert_eq!(client.check_reading(key(2), 500, &vec![pk], h).unwrap_err(), OracleError::MeterNotBound);
    assert_eq!(OracleError::MeterNotBound.code(), 7);
    // More than a day at full capacity.
    assert_eq!(client.check_reading(key(1), 24_001, &vec![pk], h).unwrap_err(), OracleError::InvalidMeterReading);
    assert_eq!(OracleError::InvalidMeterReading.code(), 6);
    assert!(client.check_reading(key(1), 24_000, &vec![pk], h).is_ok());
    // Unknown signer, then an inactive one.
    assert_eq!(client.check_reading(key(1), 500, &vec![key(50)], h).unwrap_err(), OracleError::InvalidSignature);
    assert_eq!(OracleError::InvalidSignature.code(), 5);
    client.register_oracle(key(51), uri(), addr(6), 0).unwrap();
    assert_eq!(client.check_reading(key(1), 500, &vec![pk, key(51)], h).unwrap_err(), OracleError::InvalidSignature);
    // No signer at the default one-of-one threshold.
    assert_eq!(client.check_reading(key(1), 500, &Vec::new(), h).unwrap_err(), OracleError::ThresholdNotMet);
}

#[test]
fn rewards_wait_for_a_funded_pool() {
    let env = Env::default();
    let pk = key(9);
    let mut client = bonded(pk);
    client.fund_reward_pool(1_500_000);
    let h1 = reading_hash(&env, &key(1), 1, 1);
    client.record_reading(key(1), 1, 1, vec![pk], h1, 1).unwrap();
    assert_eq!(client.get_oracle(pk).unwrap().rewards, 1_000_000);
    assert_eq!(client.reward_pool(), 500_000);
    // The pool no longer holds a reward: nothing is paid.
    let h2 = reading_hash(&env, &key(1), 2, 2);
    client.record_reading(key(1), 2, 2, vec![pk], h2, 2).unwrap();
    assert_eq!(client.get_oracle(pk).unwrap().rewards, 1_000_000);
    assert_eq!(client.get_oracle(pk).unwrap().reputation, 1);
    assert_eq!(client.reward_pool(), 500_000);
}

#[test]
fn disputes_of_unknown_or_resolved_readings() {
    let env = Env::default();
    let pk = key(9);
    let mut client = bonded(pk);
    let h = reading_hash(&env, &key(1), 3, 3);
    assert_eq!(client.dispute(h), Err(OracleError::OracleNotFound));
    assert_eq!(client.resolve_dispute(h, true), Err(OracleError::OracleNotFound));
    client.record_reading(key(1), 3, 3, vec![pk], h, 1).unwrap();
    client.resolve_dispute(h, true).unwrap();
    assert_eq!(client.dispute(h), Err(OracleError::AlreadyResolved));
    assert_eq!(client.resolve_dispute(h, false), Err(OracleError::AlreadyResolved));
    assert_eq!(OracleError::AlreadyResolved.code(), 8);
}

#[test]
fn bond_errors() {
    let mut client = setup();
    assert_eq!(client.deposit_bond(key(1), 5), Err(OracleError::OracleNotFound));
    assert_eq!(client.withdraw_bond(key(1), 5), Err(OracleError::OracleNotFound));
    client.register_oracle(key(1), uri(), addr(10), 0).unwrap();
    client.deposit_bond(key(1), 5).unwrap();
    assert!(!client.get_oracle(key(1)).unwrap().active);
    assert_eq!(client.withdraw_bond(key(1), 6), Err(OracleError::InsufficientBond));
    assert_eq!(OracleError::InsufficientBond.code(), 12);
    assert_eq!(client.claim_rewards(key(2)), Err(OracleError::OracleNotFound));
}

#[test]
fn threshold_must_be_a_proper_fraction() {
    let mut client = setup();
    assert_eq!(client.set_threshold(0, 1), Err(OracleError::Unauthorized));
    assert_eq!(client.set_threshold(1, 0), Err(OracleError::Unauthorized));
    assert_eq!(client.set_threshold(3, 2), Err(OracleError::Unauthorized));
    assert_eq!(client.threshold(), (1, 1));
    assert_eq!(OracleError::Unauthorized.code(), 1);
    assert_eq!(OracleError::DisputeWindowExpired.code(), 9);
    assert_eq!(OracleError::RewardPoolInsufficient.code(), 14);
}

#[test]
fn meters_and_price() {
    let mut client = setup();
    assert_eq!(client.get_meter(key(3)), Err(OracleError::MeterNotBound));
    client.set_meter(key(3), addr(1), key(4), 10);
    client.set_meter(key(3), addr(2), key(5), 20);
    let m = client.get_meter(key(3)).unwrap();
    assert_eq!((m.receiver, m.asset_id, m.capacity_mw), (addr(2), key(5), 20));
    assert_eq!(client.get_price(), 0);
    client.set_price(5_000_000);
    assert_eq!(client.get_price(), 5_000_000);
    assert_eq!(client.admin(), addr(1));
    client.transfer_admin(addr(8));
    assert_eq!(client.admin(), addr(8));
    assert_eq!(client.rec_token(), None);
}

#[test]
fn a_reading_is_recorded_once_whoever_attests_it() {
    let env = Env::default();
    let pk = key(9);
    let other = key(10);
    let mut client = bonded(pk);
    client.register_oracle(other, uri(), addr(6), 0).unwrap();
    client.deposit_bond(other, 100_000_000_000).unwrap();
    let h = client.submit_reading(&env, key(1), 300, 77, vec![pk], 1).unwrap();
    let before = client.data();
    assert_eq!(
        client.submit_reading(&env, key(1), 300, 77, vec![other], 2),
        Err(OracleError::Unauthorized)
    );
    assert_eq!(
        client.record_reading(key(1), 300, 77, vec![pk, other], h, 3),
        Err(OracleError::Unauthorized)
    );
    assert_eq!(client.data(), before);
}

#[test]
fn stored_revoked_attestors_must_be_known_and_inactive() {
    let pk = key(9);
    let mut client = bonded(pk);
    client.revoke_oracle(pk).unwrap();
    client.deposit_bond(pk, 1).unwrap();
    assert!(!client.get_oracle(pk).unwrap().active);
    let data = client.data();
    assert!(OracleHandlerContract::restore(data.clone()).is_some());
    let mut bad = data.clone();
    bad.oracles[0].active = true;
    assert!(OracleHandlerContract::restore(bad).is_none());
    let mut bad = data;
    bad.revoked.push(key(7));
    assert!(OracleHandlerContract::restore(bad).is_none());
}

#[test]
fn signer_checks_stop_at_the_first_failing_signer() {
    let pk = key(9);
    let mut client = bonded(pk);
    client.register_oracle(key(10), uri(), addr(6), 0).unwrap();
    assert_eq!(client.check_signers(&vec![pk]), Ok(()));
    assert_eq!(client.check_signers(&vec![pk, key(10)]), Err(OracleError::InvalidSignature));
    assert_eq!(client.check_signers(&vec![pk, key(11)]), Err(OracleError::InvalidSignature));
    client.set_minimum_bond(200_000_000_000);
    assert_eq!(client.check_signers(&vec![pk, key(11)]), Err(OracleError::BondTooLow));
}
