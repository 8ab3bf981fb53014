use soroban_sdk::Env;
use stellar_rec::ids::Address;
use stellar_rec::market_types::{OrderRestriction, OrderSide};
use stellar_rec::marketplace::MarketplaceContract;
use stellar_rec::oracle::{reading_hash, OracleError, OracleHandlerContract};
use stellar_rec::rec_token::{FuelType, RecTokenContract, RecTokenError};
use stellar_rec::retirement::{compute_receipt_id, ClaimData, RetiredToken, RetirementContract};

fn addr(seed: u8) -> Address {
    Address::account([seed; 32])
}

fn claim() -> ClaimData {
    ClaimData { period_start: 1, period_end: 2, purpose: b"p".to_vec(), jurisdiction: b"j".to_vec() }
}

#[test]
fn rec_registry_survives_a_round_trip_through_storage() {
    let mut c = RecTokenContract::new(addr(1));
    c.authorize_minter(addr(2));
    for ts in 0..4u64 {
        c.mint(addr(3), [0; 32], ts, FuelType::Solar, 2026, b"u".to_vec()).unwrap();
    }
    c.transfer(addr(3), addr(4), 2).unwrap();
    c.burn(addr(3), 3, 99).unwrap();
    c.pause();

    let data = c.data();
    let r = RecTokenContract::restore(data.clone()).unwrap();
    assert_eq!(r.data(), data);
    assert_eq!(r.total_supply(), 3);
    assert_eq!(r.balance_of(addr(3)), 2);
    assert_eq!(r.balance_of(addr(4)), 1);
    assert!(r.paused());
    assert_eq!(r.authorized_minter(), Some(addr(2)));

    let mut bad = data;
    bad.tokens.swap(0, 1);
    assert!(RecTokenContract::restore(bad).is_none());
}

#[test]
fn marketplace_survives_a_round_trip_through_storage() {
    let mut m = MarketplaceContract::new(addr(1));
    m.set_fee_rate(20).unwrap();
    m.place_order(addr(2), OrderSide::Buy, 10, 3, OrderRestriction::Unrestricted, None, 5).unwrap();
    m.open_cfd(addr(3), 10_000, 1_000, 10, 1_500_000, 0).unwrap();
    let data = m.data();
    let r = MarketplaceContract::restore(data.clone()).unwrap();
    assert_eq!(r.data(), data);
    assert_eq!(r.fee_rate(), 20);
    assert_eq!(r.get_order(1).unwrap().remaining_qty, 3);

    let mut bad = data.clone();
    bad.fee_rate = 101;
    assert!(MarketplaceContract::restore(bad).is_none());
    let mut bad = data.clone();
    bad.orders[0].order_id = 7;
    assert!(MarketplaceContract::restore(bad).is_none());
    let mut bad = data.clone();
    bad.positions[0].collateral_a = -1;
    assert!(MarketplaceContract::restore(bad).is_none());
    let mut bad = data;
    bad.positions[0].collateral_a = 1_499_999;
    assert!(MarketplaceContract::restore(bad).is_none());
}

#[test]
fn oracle_handler_survives_a_round_trip_through_storage() {
    let env = Env::default();
    let mut o = OracleHandlerContract::new(addr(1));
    o.register_oracle([9; 32], b"u".to_vec(), addr(2), 0).unwrap();
    o.deposit_bond([9; 32], 100_000_000_000).unwrap();
    o.set_meter([1; 32], addr(3), [4; 32], 10);
    let h = reading_hash(&env, &[1; 32], 5, 6);
    o.record_reading([1; 32], 5, 6, vec![[9; 32]], h, 1).unwrap();

    let data = o.data();
    let r = OracleHandlerContract::restore(data.clone()).unwrap();
    assert_eq!(r.data(), data);
    assert_eq!(r.oracle_count(), 1);
    assert!(r.get_oracle([9; 32]).unwrap().active);

    let mut bad = data.clone();
    bad.oracles.push(bad.oracles[0].clone());
    assert!(OracleHandlerContract::restore(bad).is_none());
    let mut bad = data.clone();
    bad.threshold_n = 0;
    assert!(OracleHandlerContract::restore(bad).is_none());
    let mut bad = data;
    bad.readings[0].oracles.push([8; 32]);
    assert!(OracleHandlerContract::restore(bad).is_none());
}

#[test]
fn retirement_registry_survives_a_round_trip_through_storage() {
    let mut c = RetirementContract::new(addr(1));
    c.set_rec_token(addr(2));
    c.set_verifier(addr(5), true);
    let owners = vec![addr(3), addr(3)];
    c.retire(addr(3), vec![7, 8], claim(), &owners, 1, 1).unwrap();

    let data = c.data();
    let r = RetirementContract::restore(data.clone()).unwrap();
    assert_eq!(r.data(), data);
    assert_eq!(r.verify_retirement(8), Some(compute_receipt_id(1)));
    assert!(r.is_verifier(addr(5)));

    let mut bad = data.clone();
    bad.retired.push(RetiredToken { token_id: 9, receipt_id: compute_receipt_id(1) });
    assert!(RetirementContract::restore(bad).is_none());
    let mut bad = data.clone();
    bad.receipts[0].receipt_id = compute_receipt_id(2);
    assert!(RetirementContract::restore(bad).is_none());
    let mut bad = data.clone();
    bad.verifiers.push(addr(5));
    assert!(RetirementContract::restore(bad).is_none());
    let mut bad = data;
    bad.retirement_fee = -5;
    assert!(RetirementContract::restore(bad).is_none());
}

#[test]
fn burn_while_paused_is_refused() {
    let mut c = RecTokenContract::new(addr(1));
    c.authorize_minter(addr(2));
    c.mint(addr(3), [0; 32], 1, FuelType::Wind, 2026, Vec::new()).unwrap();
    c.pause();
    assert_eq!(c.burn(addr(3), 1, 1), Err(RecTokenError::ContractPaused));
    assert_eq!(c.total_supply(), 1);
}

#[test]
fn a_signer_listed_twice_is_rewarded_twice() {
    let env = Env::default();
    let mut o = OracleHandlerContract::new(addr(1));
    o.register_oracle([9; 32], Vec::new(), addr(2), 0).unwrap();
    o.deposit_bond([9; 32], 100_000_000_000).unwrap();
    o.set_meter([1; 32], addr(3), [4; 32], 10);
    o.fund_reward_pool(5_000_000);
    let h = reading_hash(&env, &[1; 32], 5, 6);
    o.record_reading([1; 32], 5, 6, vec![[9; 32], [9; 32]], h, 1).unwrap();
    let n = o.get_oracle([9; 32]).unwrap();
    assert_eq!(n.rewards, 2_000_000);
    assert_eq!(n.reputation, 2);
    assert_eq!(o.reward_pool(), 3_000_000);
}

#[test]
fn match_arithmetic_limits() {
    let mut m = MarketplaceContract::new(addr(1));
    m.place_order(addr(2), OrderSide::Buy, i128::MAX, 2, OrderRestriction::Unrestricted, None, 0).unwrap();
    m.place_order(addr(3), OrderSide::Sell, i128::MAX / 2 + 1, 2, OrderRestriction::Unrestricted, None, 0).unwrap();
    assert!(!m.match_fits(1, 2));
    assert!(!m.auto_match_fits());
    // A match that its checks refuse never computes.
    assert!(m.match_fits(2, 1));
    let mut ok = MarketplaceContract::new(addr(1));
    ok.place_order(addr(2), OrderSide::Buy, 100, 2, OrderRestriction::Unrestricted, None, 0).unwrap();
    ok.place_order(addr(3), OrderSide::Sell, 90, 2, OrderRestriction::Unrestricted, None, 0).unwrap();
    assert!(ok.match_fits(1, 2));
    assert!(ok.auto_match_fits());
}

#[test]
fn close_arithmetic_limits() {
    let mut m = MarketplaceContract::new(addr(1));
    m.open_cfd(addr(2), 10_000, 1_000, 10, 1_500_000, 0).unwrap();
    m.accept_cfd(addr(3), 1, 1_500_000).unwrap();
    assert!(m.settle_fits(addr(2), 1, 10, 20_000));
    assert!(!m.settle_fits(addr(2), 1, 10, i128::MAX));
    // Before the settlement date the checks refuse first.
    assert!(m.settle_fits(addr(2), 1, 5, i128::MAX));
    assert!(!m.liquidation_fits(1, i128::MAX));
    assert!(m.liquidation_fits(2, i128::MAX));
    assert!(m.add_collateral_fits(addr(2), 1, 5));
    assert!(!m.add_collateral_fits(addr(2), 1, i128::MAX));
    assert!(m.add_collateral_fits(addr(9), 1, i128::MAX));
}

#[test]
fn reading_arithmetic_limits() {
    let env = Env::default();
    let mut o = OracleHandlerContract::new(addr(1));
    o.register_oracle([9; 32], Vec::new(), addr(2), 0).unwrap();
    o.deposit_bond([9; 32], 100_000_000_000).unwrap();
    o.set_meter([1; 32], addr(3), [4; 32], u64::MAX);
    let h = reading_hash(&env, &[1; 32], 5, 6);
    assert!(!o.reading_fits_check([1; 32], 5, &vec![[9; 32]]));
    o.set_meter([1; 32], addr(3), [4; 32], 10);
    assert!(o.reading_fits_check([1; 32], 5, &vec![[9; 32]]));
    o.set_reward_per_reading(i128::MAX);
    assert!(!o.reading_fits_check([1; 32], 5, &vec![[9; 32], [9; 32]]));
    o.set_reward_per_reading(1);
    o.fund_reward_pool(10);
    assert!(o.reading_fits_check([1; 32], 5, &vec![[9; 32], [9; 32]]));
    // An unknown signer is refused before any arithmetic.
    assert!(o.reading_fits_check([1; 32], 5, &vec![[8; 32]]));
    assert_eq!(
        o.check_reading([1; 32], 5, &vec![[8; 32]], h).unwrap_err(),
        OracleError::InvalidSignature
    );
}

#[test]
fn supply_is_the_sum_of_balances() {
    let mut c = RecTokenContract::new(addr(1));
    c.authorize_minter(addr(2));
    for ts in 0..6u64 {
        let to = if ts % 2 == 0 { addr(3) } else { addr(4) };
        c.mint(to, [0; 32], ts, FuelType::Solar, 2026, Vec::new()).unwrap();
    }
    c.transfer(addr(3), addr(5), 1).unwrap();
    c.burn(addr(4), 2, 9).unwrap();
    let sum: u64 = [addr(3), addr(4), addr(5)].iter().map(|o| c.balance_of(*o)).sum();
    assert_eq!(sum, c.total_supply());
    assert_eq!(sum, 5);
}

#[test]
fn a_paid_reading_conserves_pool_plus_rewards() {
    let env = Env::default();
    let mut o = OracleHandlerContract::new(addr(1));
    for k in [7u8, 8u8] {
        o.register_oracle([k; 32], Vec::new(), addr(2), 0).unwrap();
        o.deposit_bond([k; 32], 100_000_000_000).unwrap();
    }
    o.set_meter([1; 32], addr(3), [4; 32], 10);
    o.fund_reward_pool(10_000_000);
    let total = |o: &OracleHandlerContract| {
        o.reward_pool() + o.get_oracle([7; 32]).unwrap().rewards + o.get_oracle([8; 32]).unwrap().rewards
    };
    let before = total(&o);
    o.submit_reading(&env, [1; 32], 5, 6, vec![[7; 32], [8; 32], [7; 32]], 1).unwrap();
    assert_eq!(total(&o), before);
    assert_eq!(o.reward_pool(), 7_000_000);
    assert_eq!(o.get_oracle([7; 32]).unwrap().rewards, 2_000_000);
}

#[test]
fn a_dispute_resolves_once() {
    let env = Env::default();
    let mut o = OracleHandlerContract::new(addr(1));
    o.register_oracle([7; 32], Vec::new(), addr(2), 0).unwrap();
    o.deposit_bond([7; 32], 100_000_000_000).unwrap();
    o.set_meter([1; 32], addr(3), [4; 32], 10);
    let h = o.submit_reading(&env, [1; 32], 5, 6, vec![[7; 32]], 1).unwrap();
    assert_eq!(o.resolve_dispute(h, false), Ok(vec![100_000_000_000]));
    assert_eq!(o.resolve_dispute(h, false), Err(OracleError::AlreadyResolved));
    assert_eq!(o.get_oracle([7; 32]).unwrap().stake, 0);
}
