use stellar_rec::ids::Address;
use stellar_rec::market_types::{MarketError, OrderRestriction, OrderSide, OrderStatus, PositionState};
use stellar_rec::marketplace::MarketplaceContract;

fn addr(seed: u8) -> Address {
    Address::account([seed; 32])
}

fn setup() -> MarketplaceContract {
    MarketplaceContract::new(addr(1))
}

fn setup_with_tokens() -> MarketplaceContract {
    let mut m = MarketplaceContract::new(addr(1));
    m.set_rec_token(Address::contract([2; 32]));
    m.set_usdc_token(Address::contract([3; 32]));
    m.set_fee_vault(addr(4));
    m
}

fn place(m: &mut MarketplaceContract, trader: Address, side: OrderSide, price: i128, qty: u64) -> u64 {
    m.place_order(trader, side, price, qty, OrderRestriction::Unrestricted, None, 0)
        .unwrap()
}

#[test]
fn test_place_buy_order() {
    let mut client = setup();
    let trader = addr(10);
    let order_id = place(&mut client, trader, OrderSide::Buy, 100_000_000, 10);

    assert_eq!(order_id, 1);
    let order = client.get_order(order_id).unwrap();
    assert_eq!(order.order_id, 1);
    assert_eq!(order.side, OrderSide::Buy);
    assert_eq!(order.price, 100_000_000);
    assert_eq!(order.initial_qty, 10);
    assert_eq!(order.remaining_qty, 10);
    assert_eq!(order.status, OrderStatus::Open);
}

#[test]
fn test_place_sell_order() {
    let mut client = setup();
    let trader = addr(10);
    let order_id = place(&mut client, trader, OrderSide::Sell, 90_000_000, 5);

    assert_eq!(order_id, 1);
    let order = client.get_order(order_id).unwrap();
    assert_eq!(order.side, OrderSide::Sell);
}

#[test]
fn test_cancel_order() {
    let mut client = setup();
    let trader = addr(10);
    let order_id = place(&mut client, trader, OrderSide::Buy, 100_000_000, 10);

    assert_eq!(client.cancel_order(trader, order_id), Ok(()));
    let order = client.get_order(order_id).unwrap();
    assert_eq!(order.status, OrderStatus::Cancelled);
}

#[test]
fn test_best_bid_ask() {
    let mut client = setup();
    let trader = addr(10);
    place(&mut client, trader, OrderSide::Buy, 100_000_000, 10);
    place(&mut client, trader, OrderSide::Sell, 90_000_000, 5);

    let best_bid = client.get_best_bid();
    assert!(best_bid.is_some());
    assert_eq!(best_bid.unwrap().price, 100_000_000);

    let best_ask = client.get_best_ask();
    assert!(best_ask.is_some());
    assert_eq!(best_ask.unwrap().price, 90_000_000);
}

#[test]
fn test_cancel_nonexistent() {
    let mut client = setup();
    let caller = addr(11);
    let e = client.cancel_order(caller, 999).unwrap_err();
    assert_eq!(e, MarketError::OrderNotFound);
    assert_eq!(e.code(), 2);
}

#[test]
fn test_price_time_priority() {
    let mut client = setup();
    let trader = addr(10);

    place(&mut client, trader, OrderSide::Buy, 95_000_000, 5);
    place(&mut client, trader, OrderSide::Buy, 100_000_000, 10);
    place(&mut client, trader, OrderSide::Buy, 98_000_000, 7);

    let buys = client.get_buy_orders();
    assert_eq!(buys.len(), 3);
    assert_eq!(buys[0].price, 100_000_000);
    assert_eq!(buys[1].price, 98_000_000);
    assert_eq!(buys[2].price, 95_000_000);

    place(&mut client, trader, OrderSide::Sell, 90_000_000, 5);
    place(&mut client, trader, OrderSide::Sell, 85_000_000, 10);
    place(&mut client, trader, OrderSide::Sell, 88_000_000, 7);

    let sells = client.get_sell_orders();
    assert_eq!(sells.len(), 3);
    assert_eq!(sells[0].price, 85_000_000);
    assert_eq!(sells[1].price, 88_000_000);
    assert_eq!(sells[2].price, 90_000_000);
}

#[test]
fn test_match_orders_basic() {
    let mut client = setup_with_tokens();
    let buyer = addr(20);
    let seller = addr(21);

    place(&mut client, buyer, OrderSide::Buy, 100_000_000, 10);
    place(&mut client, seller, OrderSide::Sell, 100_000_000, 10);

    let f = client.match_orders(1, 2).unwrap();
    assert_eq!(f.fill_qty, 10);
    assert_eq!(f.fill_price, 100_000_000);
    assert_eq!(f.fee, 1_000_000);

    let buy = client.get_order(1).unwrap();
    let sell = client.get_order(2).unwrap();
    assert_eq!(buy.status, OrderStatus::Filled);
    assert_eq!(sell.status, OrderStatus::Filled);
    assert_eq!(buy.remaining_qty, 0);
    assert_eq!(sell.remaining_qty, 0);
}

#[test]
fn test_match_partial_fill() {
    let mut client = setup_with_tokens();
    let buyer = addr(20);
    let seller = addr(21);

    place(&mut client, buyer, OrderSide::Buy, 100_000_000, 10);
    place(&mut client, seller, OrderSide::Sell, 100_000_000, 5);

    let f = client.match_orders(1, 2).unwrap();
    assert_eq!(f.fill_qty, 5);
    assert_eq!(f.fill_price, 100_000_000);

    let buy = client.get_order(1).unwrap();
    let sell = client.get_order(2).unwrap();
    assert_eq!(buy.status, OrderStatus::Open);
    assert_eq!(buy.remaining_qty, 5);
    assert_eq!(sell.status, OrderStatus::Filled);
    assert_eq!(sell.remaining_qty, 0);
}

#[test]
fn test_price_mismatch_rejected() {
    let mut client = setup_with_tokens();
    let buyer = addr(20);
    let seller = addr(21);

    place(&mut client, buyer, OrderSide::Buy, 90_000_000, 10);
    place(&mut client, seller, OrderSide::Sell, 100_000_000, 10);

    let e = client.match_orders(1, 2).unwrap_err();
    assert_eq!(e, MarketError::PriceMismatch);
    assert_eq!(e.code(), 4);
}

#[test]
fn test_auto_match_multiple() {
    let mut client = setup_with_tokens();
    let buyer = addr(20);
    let seller = addr(21);

    place(&mut client, buyer, OrderSide::Buy, 100_000_000, 10);
    place(&mut client, buyer, OrderSide::Buy, 99_000_000, 5);
    place(&mut client, seller, OrderSide::Sell, 98_000_000, 8);
    place(&mut client, seller, OrderSide::Sell, 100_000_000, 7);

    let fills = client.auto_match().unwrap();
    assert!(fills.len() > 0);
    // Best bid 100 x10 meets best ask 98 x8, then the bid's last 2 meet the
    // ask at 100; the 99 bid stays below the 100 ask.
    assert_eq!(fills.len(), 2);
    assert_eq!((fills[0].buy_id, fills[0].sell_id, fills[0].fill_qty, fills[0].fill_price), (1, 3, 8, 98_000_000));
    assert_eq!((fills[1].buy_id, fills[1].sell_id, fills[1].fill_qty, fills[1].fill_price), (1, 4, 2, 100_000_000));
    assert_eq!(client.get_order(4).unwrap().remaining_qty, 5);
    assert_eq!(client.get_order(2).unwrap().status, OrderStatus::Open);
}

#[test]
fn test_fee_deduction() {
    let mut client = setup_with_tokens();
    let buyer = addr(20);
    let seller = addr(21);

    place(&mut client, buyer, OrderSide::Buy, 100_000_000, 10);
    place(&mut client, seller, OrderSide::Sell, 100_000_000, 10);

    let f = client.match_orders(1, 2).unwrap();
    assert_eq!(f.fee, 1_000_000);
    assert_eq!(f.fill_qty, 10);
    assert_eq!(f.fill_price, 100_000_000);
    assert_eq!(f.fill_value, 1_000_000_000);
    // The seller receives the full value; the buyer pays the fee on top.
    assert_eq!(f.fill_value + f.fee, 1_001_000_000);
}

#[test]
fn test_vintage_mismatch_rejected() {
    let mut client = setup_with_tokens();
    let buyer = addr(20);
    let seller = addr(21);
    client
        .place_order(buyer, OrderSide::Buy, 5_000_000, 1, OrderRestriction::Unrestricted, Some(2027), 0)
        .unwrap();
    client
        .place_order(seller, OrderSide::Sell, 5_000_000, 1, OrderRestriction::Unrestricted, Some(2026), 0)
        .unwrap();
    let e = client.match_orders(1, 2).unwrap_err();
    assert_eq!(e, MarketError::VintageMismatch);
    assert_eq!(e.code(), 7);
}

#[test]
fn test_marketplace_pause_blocks_trading() {
    let mut client = setup_with_tokens();
    let trader = addr(20);
    client.pause();
    let e = client
        .place_order(trader, OrderSide::Buy, 5_000_000, 1, OrderRestriction::Unrestricted, None, 0)
        .unwrap_err();
    assert_eq!(e, MarketError::ContractPaused);
    assert_eq!(e.code(), 14);
}

fn open_active(client: &mut MarketplaceContract, producer: Address, offtaker: Address, now: u64, expiry: u64) -> u64 {
    let strike = 40_000_000i128;
    let qty = 5_000u64;
    let collateral = (qty as i128) * strike * 1_500 / 10_000;
    let pos_id = client.open_cfd(producer, strike, qty, expiry, collateral, now).unwrap();
    client.accept_cfd(offtaker, pos_id, collateral).unwrap();
    pos_id
}

#[test]
fn test_cfd_liquidation_success_and_rejection_when_collateralized() {
    let mut client = setup_with_tokens();
    let producer = addr(30);
    let offtaker = addr(31);
    let pos_id = open_active(&mut client, producer, offtaker, 0, 86_400);

    let e = client.liquidate(pos_id, 10, 40_000_000).unwrap_err();
    assert_eq!(e, MarketError::InsufficientCollateral);

    let s = client.liquidate(pos_id, 10, 50_000_000).unwrap();
    assert_eq!(s.payoff, 50_000_000_000);

    let position = client.get_cfd(pos_id).unwrap();
    assert_eq!(position.state, PositionState::Liquidated);
    assert_eq!(position.mtm_value, 50_000_000_000i128);
}

#[test]
fn test_cfd_settlement_full_lifecycle() {
    let mut client = setup_with_tokens();
    let producer = addr(30);
    let offtaker = addr(31);
    let now = 0u64;
    let strike = 40_000_000i128;
    let qty = 5_000u64;
    let pos_id = open_active(&mut client, producer, offtaker, now, now + 1);

    let position = client.get_cfd(pos_id).unwrap();
    assert_eq!(position.strike_price, strike);
    assert_eq!(position.quantity, qty);
    assert_eq!(position.counterparty_a, producer);
    assert_eq!(position.counterparty_b, Some(offtaker));
    assert_eq!(position.state, PositionState::Active);

    let s = client.settle_cfd(addr(30), pos_id, now + 2, 30_000_000).unwrap();
    assert_eq!(s.payoff, -50_000_000_000);

    let position = client.get_cfd(pos_id).unwrap();
    assert_eq!(position.state, PositionState::Settled);
    assert_eq!(position.mtm_value, -50_000_000_000i128);
}

#[test]
fn test_marketplace_pause_blocks_cfd_liquidation() {
    let mut client = setup_with_tokens();
    let pos_id = open_active(&mut client, addr(30), addr(31), 0, 1);
    client.pause();
    let e = client.liquidate(pos_id, 5, 50_000_000).unwrap_err();
    assert_eq!(e, MarketError::ContractPaused);
    assert_eq!(e.code(), 14);
    assert_eq!(client.liquidation_ready(pos_id), Err(MarketError::ContractPaused));
}

#[test]
fn test_full_cfd_settle_after_price_movement() {
    let mut client = setup_with_tokens();
    let pos_id = open_active(&mut client, addr(30), addr(31), 0, 1);

    let s = client.settle_cfd(addr(31), pos_id, 2, 55_000_000).unwrap();
    assert_eq!(s.payoff, 75_000_000_000);

    let position = client.get_cfd(pos_id).unwrap();
    assert_eq!(position.state, PositionState::Settled);
    assert_eq!(position.mtm_value, 75_000_000_000i128);
}

// ---------- further cases ----------

#[test]
fn settlement_pays_back_all_collateral() {
    let mut client = setup_with_tokens();
    let producer = addr(30);
    let offtaker = addr(31);
    let pos_id = open_active(&mut client, producer, offtaker, 0, 1);
    // Each side posted 30_000_000_000; the producer owes 75_000_000_000,
    // more than it posted, so it loses all of it.
    let s = client.settle_cfd(addr(30), pos_id, 1, 55_000_000).unwrap();
    assert_eq!(s.party_a, producer);
    assert_eq!(s.party_b, offtaker);
    assert_eq!(s.payout_a, 0);
    assert_eq!(s.payout_b, 60_000_000_000);
    assert_eq!(s.payout_a + s.payout_b, 60_000_000_000);
}

#[test]
fn settlement_within_collateral_moves_the_difference() {
    let mut client = setup_with_tokens();
    let pos_id = open_active(&mut client, addr(30), addr(31), 0, 1);
    // Price one unit above strike: producer pays 5_000.
    let s = client.settle_cfd(addr(30), pos_id, 1, 40_000_001).unwrap();
    assert_eq!(s.payoff, 5_000);
    assert_eq!(s.payout_a, 30_000_000_000 - 5_000);
    assert_eq!(s.payout_b, 30_000_000_000 + 5_000);
    // A closed position cannot close again.
    assert_eq!(client.settle_cfd(addr(30), pos_id, 2, 40_000_000).unwrap_err(), MarketError::PositionNotActive);
}

#[test]
fn settle_before_date_or_bad_price_is_rejected() {
    let mut client = setup_with_tokens();
    let pos_id = open_active(&mut client, addr(30), addr(31), 0, 100);
    assert_eq!(client.settle_cfd(addr(30), pos_id, 99, 40_000_000).unwrap_err(), MarketError::PositionNotActive);
    assert_eq!(client.settle_ready(addr(30), pos_id, 100), Ok(()));
    assert_eq!(client.settle_cfd(addr(30), pos_id, 100, 0).unwrap_err(), MarketError::PriceMismatch);
    assert_eq!(client.settle_cfd(addr(30), 77, 100, 1).unwrap_err(), MarketError::PositionNotFound);
}

#[test]
fn open_cfd_checks() {
    let mut client = setup_with_tokens();
    let p = addr(30);
    assert_eq!(client.open_cfd(p, 0, 1, 10, 1, 0).unwrap_err(), MarketError::InvalidQuantity);
    assert_eq!(client.open_cfd(p, 10, 0, 10, 1, 0).unwrap_err(), MarketError::InvalidQuantity);
    assert_eq!(client.open_cfd(p, 10, 1, 0, 1, 0).unwrap_err(), MarketError::InvalidQuantity);
    // 1_000 x 10_000 notional needs 1_500_000 initial margin.
    assert_eq!(client.open_cfd(p, 10_000, 1_000, 10, 1_499_999, 0).unwrap_err(), MarketError::InsufficientCollateral);
    assert_eq!(client.open_cfd(p, 10_000, 1_000, 10, 1_500_000, 0), Ok(1));
    let pos = client.get_cfd(1).unwrap();
    assert_eq!(pos.state, PositionState::Pending);
    assert_eq!(pos.maintenance_margin_bps, 1_000);
    assert_eq!(pos.counterparty_b, None);
    assert_eq!(client.get_cfd(2).unwrap_err(), MarketError::PositionNotFound);
}

#[test]
fn accept_cfd_checks() {
    let mut client = setup_with_tokens();
    let producer = addr(30);
    let offtaker = addr(31);
    client.open_cfd(producer, 10_000, 1_000, 10, 1_500_000, 0).unwrap();
    assert_eq!(client.accept_cfd(producer, 1, 1_500_000).unwrap_err(), MarketError::Unauthorized);
    assert_eq!(client.accept_cfd(offtaker, 1, 0).unwrap_err(), MarketError::InsufficientCollateral);
    assert_eq!(client.accept_cfd(offtaker, 1, 1_000).unwrap_err(), MarketError::InsufficientCollateral);
    assert_eq!(client.accept_cfd(offtaker, 2, 1_500_000).unwrap_err(), MarketError::PositionNotFound);
    assert_eq!(client.accept_cfd(offtaker, 1, 1_500_000), Ok(()));
    assert_eq!(client.accept_cfd(addr(32), 1, 1_500_000).unwrap_err(), MarketError::PositionNotActive);
}

#[test]
fn collateral_can_be_added_and_removed_down_to_initial_margin() {
    let mut client = setup_with_tokens();
    let producer = addr(30);
    let offtaker = addr(31);
    client.open_cfd(producer, 10_000, 1_000, 10, 1_500_000, 0).unwrap();
    client.accept_cfd(offtaker, 1, 1_500_000).unwrap();

    assert_eq!(client.add_collateral(producer, 1, 500), Ok(()));
    assert_eq!(client.get_cfd(1).unwrap().collateral_a, 1_500_500);
    assert_eq!(client.add_collateral(offtaker, 1, 700), Ok(()));
    assert_eq!(client.get_cfd(1).unwrap().collateral_b, 1_500_700);
    assert_eq!(client.add_collateral(addr(99), 1, 1).unwrap_err(), MarketError::Unauthorized);
    assert_eq!(client.add_collateral(producer, 1, 0).unwrap_err(), MarketError::InsufficientCollateral);

    assert_eq!(client.remove_collateral(producer, 1, 501).unwrap_err(), MarketError::CollateralBelowMaintenance);
    assert_eq!(client.remove_collateral(producer, 1, 500), Ok(()));
    assert_eq!(client.get_cfd(1).unwrap().collateral_a, 1_500_000);
    assert_eq!(client.remove_collateral(offtaker, 1, 2_000_000).unwrap_err(), MarketError::InsufficientCollateral);
    assert_eq!(client.remove_collateral(addr(99), 1, 1).unwrap_err(), MarketError::Unauthorized);
    assert_eq!(client.remove_collateral(offtaker, 5, 1).unwrap_err(), MarketError::PositionNotFound);
}

#[test]
fn fee_rate_is_capped() {
    let mut client = setup();
    assert_eq!(client.fee_rate(), 10);
    assert_eq!(client.set_fee_rate(101).unwrap_err(), MarketError::FeeCapExceeded);
    assert_eq!(MarketError::FeeCapExceeded.code(), 6);
    assert_eq!(client.fee_rate(), 10);
    assert_eq!(client.set_fee_rate(100), Ok(()));
    assert_eq!(client.fee_rate(), 100);
}

#[test]
fn fee_rounds_toward_zero() {
    let mut client = setup_with_tokens();
    place(&mut client, addr(20), OrderSide::Buy, 999, 1);
    place(&mut client, addr(21), OrderSide::Sell, 999, 1);
    // 999 * 10 / 10_000 rounds to 0.
    let f = client.match_orders(1, 2).unwrap();
    assert_eq!(f.fee, 0);
    assert_eq!(f.fill_value, 999);
}

#[test]
fn match_errors_in_order() {
    let mut client = setup_with_tokens();
    let t = addr(20);
    place(&mut client, t, OrderSide::Buy, 10, 1);
    place(&mut client, t, OrderSide::Buy, 10, 1);
    place(&mut client, t, OrderSide::Sell, 10, 1);
    place(&mut client, t, OrderSide::Sell, 10, 0);
    assert_eq!(client.match_orders(1, 9).unwrap_err(), MarketError::OrderNotFound);
    assert_eq!(client.match_orders(1, 2).unwrap_err(), MarketError::PriceMismatch);
    assert_eq!(client.match_orders(1, 4).unwrap_err(), MarketError::InvalidQuantity);
    client.cancel_order(t, 2).unwrap();
    assert_eq!(client.match_orders(2, 3).unwrap_err(), MarketError::OrderFilled);
    assert_eq!(client.cancel_order(t, 2).unwrap_err(), MarketError::OrderFilled);
    assert_eq!(client.cancel_order(addr(21), 1).unwrap_err(), MarketError::Unauthorized);
    assert_eq!(MarketError::OrderFilled.code(), 3);
    assert_eq!(MarketError::InsufficientBalance.code(), 5);
    assert_eq!(MarketError::CfDAlreadySettled.code(), 13);
    client.pause();
    assert_eq!(client.match_orders(1, 3).unwrap_err(), MarketError::ContractPaused);
    client.resume();
    assert!(client.match_orders(1, 3).is_ok());
}

#[test]
fn book_skips_closed_orders_and_breaks_ties_by_time() {
    let mut client = setup();
    let t = addr(20);
    client.place_order(t, OrderSide::Buy, 50, 1, OrderRestriction::Unrestricted, None, 5).unwrap();
    client.place_order(t, OrderSide::Buy, 50, 1, OrderRestriction::Unrestricted, None, 3).unwrap();
    client.place_order(t, OrderSide::Buy, 60, 1, OrderRestriction::FillOrKill, None, 9).unwrap();
    client.place_order(t, OrderSide::Buy, 70, 1, OrderRestriction::ImmediateOrCancel, None, 1).unwrap();
    client.cancel_order(t, 4).unwrap();
    let buys = client.get_buy_orders();
    let ids: Vec<u64> = buys.iter().map(|o| o.order_id).collect();
    assert_eq!(ids, vec![3, 2, 1]);
    assert_eq!(client.get_best_bid().unwrap().order_id, 3);
    assert_eq!(client.get_best_ask(), None);
    assert!(client.get_sell_orders().is_empty());
}

#[test]
fn auto_match_on_an_uncrossed_book_does_nothing() {
    let mut client = setup_with_tokens();
    place(&mut client, addr(20), OrderSide::Buy, 10, 1);
    place(&mut client, addr(21), OrderSide::Sell, 11, 1);
    assert_eq!(client.auto_match().unwrap().len(), 0);
    assert_eq!(client.get_order(1).unwrap().remaining_qty, 1);
}

#[test]
fn auto_match_failure_keeps_the_book() {
    let mut client = setup_with_tokens();
    client.place_order(addr(20), OrderSide::Buy, 10, 1, OrderRestriction::Unrestricted, Some(2026), 0).unwrap();
    client.place_order(addr(21), OrderSide::Sell, 10, 1, OrderRestriction::Unrestricted, Some(2027), 0).unwrap();
    assert_eq!(client.auto_match().unwrap_err(), MarketError::VintageMismatch);
    assert_eq!(client.get_order(1).unwrap().status, OrderStatus::Open);
    assert_eq!(client.get_order(2).unwrap().status, OrderStatus::Open);
}

#[test]
fn liquidation_of_healthy_or_missing_position() {
    let mut client = setup_with_tokens();
    let pos_id = open_active(&mut client, addr(30), addr(31), 0, 10);
    assert_eq!(client.liquidate(pos_id, 1, 40_000_000).unwrap_err(), MarketError::InsufficientCollateral);
    assert_eq!(client.liquidate(9, 1, 40_000_000).unwrap_err(), MarketError::PositionNotFound);
    // Price far below strike: the offtaker owes more than its collateral.
    let s = client.liquidate(pos_id, 1, 20_000_000).unwrap();
    assert_eq!(s.payoff, -100_000_000_000);
    assert_eq!(s.payout_a, 60_000_000_000);
    assert_eq!(s.payout_b, 0);
    assert_eq!(client.liquidate(pos_id, 2, 20_000_000).unwrap_err(), MarketError::PositionNotActive);
}

#[test]
fn market_settings_round_trip() {
    let mut client = MarketplaceContract::new(addr(1));
    assert_eq!(client.admin(), addr(1));
    client.transfer_admin(addr(2));
    assert_eq!(client.admin(), addr(2));
    assert_eq!(client.rec_token(), None);
    client.set_rec_token(addr(3));
    client.set_usdc_token(addr(4));
    client.set_fee_vault(addr(5));
    client.set_oracle_handler(addr(6));
    assert_eq!(client.rec_token(), Some(addr(3)));
    assert_eq!(client.usdc_token(), Some(addr(4)));
    assert_eq!(client.fee_vault(), Some(addr(5)));
    assert_eq!(client.oracle_handler(), Some(addr(6)));
    assert!(!client.paused());
}

#[test]
fn only_a_party_may_settle() {
    let mut client = setup_with_tokens();
    let pos_id = open_active(&mut client, addr(30), addr(31), 0, 1);
    assert_eq!(client.settle_ready(addr(32), pos_id, 5), Err(MarketError::Unauthorized));
    assert_eq!(client.settle_cfd(addr(32), pos_id, 5, 40_000_000).unwrap_err(), MarketError::Unauthorized);
    assert_eq!(MarketError::Unauthorized.code(), 1);
    assert_eq!(client.get_cfd(pos_id).unwrap().state, PositionState::Active);
    assert!(client.settle_cfd(addr(31), pos_id, 5, 40_000_000).is_ok());
}
