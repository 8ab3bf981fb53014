//! The marketplace: a limit-order book for certificates and
//! contracts-for-difference settled against a reference price.
use vstd::prelude::*;
use crate::ids::Address;
use crate::market_types::{CfDPosition, Fill, MarketError, Order, OrderRestriction, OrderSide, OrderStatus, PositionState, Settlement, trunc_div};
use crate::order_book::{self, live, is_best, ids_increasing, is_book, ranks_before};

verus! {

/// Initial margin of a position, in basis points of its notional.
pub const INITIAL_MARGIN_BPS: u32 = 1500;

/// Maintenance margin of a position, in basis points of its notional.
pub const MAINTENANCE_MARGIN_BPS: u32 = 1000;

/// Highest trading fee the administrator may set, in basis points.
pub const FEE_CAP_BPS: u32 = 100;

/// Trading fee of a new marketplace, in basis points.
pub const DEFAULT_FEE_BPS: u32 = 10;

/// The part of `notional` that `bps` basis points make.
pub open spec fn margin(notional: int, bps: int) -> int {
    notional * bps / 10000
}

/// Quantity times strike of a position.
pub open spec fn notional(p: CfDPosition) -> int {
    p.quantity * p.strike_price
}

/// What the producer owes the offtaker at reference price `spot`
/// (negative when the offtaker owes the producer).
pub open spec fn payoff(p: CfDPosition, spot: int) -> int {
    (spot - p.strike_price) * p.quantity
}

/// What each party gets back when the position closes with `payoff`:
/// the loser pays the difference out of its collateral, at most all of it.
pub open spec fn payouts(a: int, b: int, payoff: int) -> (int, int) {
    if payoff > 0 {
        if payoff > a {
            (0, b + a)
        } else {
            (a - payoff, b + payoff)
        }
    } else if payoff < 0 {
        if -payoff > b {
            (a + b, 0)
        } else {
            (a - payoff, b + payoff)
        }
    } else {
        (a, b)
    }
}

/// Whether an `int` fits an `i128`.
pub open spec fn fits_i128(x: int) -> bool {
    i128::MIN <= x <= i128::MAX
}

/// Order `o` after `q` of it has been filled.
pub open spec fn after_fill(o: Order, q: u64) -> Order {
    Order {
        remaining_qty: (o.remaining_qty - q) as u64,
        status: if o.remaining_qty - q == 0 {
            OrderStatus::Filled
        } else {
            o.status
        },
        ..o
    }
}

/// The fill of buy order `b` against sell order `s` at fee rate `rate`:
/// the smaller remaining quantity at the sell price, and the fee the buyer
/// pays on top of the traded value, rounded toward zero.
pub open spec fn fill_of(b: Order, s: Order, rate: u32) -> Fill {
    let q = if b.remaining_qty < s.remaining_qty {
        b.remaining_qty
    } else {
        s.remaining_qty
    };
    let value = s.price * q;
    let fee = trunc_div(value * rate, 10000);
    Fill {
        buy_id: b.order_id,
        sell_id: s.order_id,
        buyer: b.trader,
        seller: s.trader,
        fill_qty: q,
        fill_price: s.price,
        fill_value: value as i128,
        fee: fee as i128,
    }
}

/// The marketplace's abstract state.
pub ghost struct MarketState {
    pub admin: Address,
    pub fee_rate: u32,
    pub rec_token: Option<Address>,
    pub usdc_token: Option<Address>,
    pub fee_vault: Option<Address>,
    pub oracle_handler: Option<Address>,
    pub paused: bool,
    pub orders: Seq<Order>,
    pub positions: Seq<CfDPosition>,
}

impl MarketState {
    /// Whether an order with this id exists.
    pub open spec fn has_order(self, id: u64) -> bool {
        1 <= id <= self.orders.len()
    }

    /// The order with this id.
    pub open spec fn order(self, id: u64) -> Order {
        self.orders[id - 1]
    }

    /// Whether a position with this id exists.
    pub open spec fn has_position(self, id: u64) -> bool {
        1 <= id <= self.positions.len()
    }

    /// The position with this id.
    pub open spec fn position(self, id: u64) -> CfDPosition {
        self.positions[id - 1]
    }

    /// The checks a match of `buy_id` against `sell_id` makes, in order.
    pub open spec fn match_check(self, buy_id: u64, sell_id: u64) -> Result<(), MarketError> {
        if self.paused {
            Err(MarketError::ContractPaused)
        } else if !self.has_order(buy_id) || !self.has_order(sell_id) {
            Err(MarketError::OrderNotFound)
        } else {
            let b = self.order(buy_id);
            let s = self.order(sell_id);
            if b.status != OrderStatus::Open || s.status != OrderStatus::Open {
                Err(MarketError::OrderFilled)
            } else if b.remaining_qty == 0 || s.remaining_qty == 0 {
                Err(MarketError::InvalidQuantity)
            } else if b.side != OrderSide::Buy || s.side != OrderSide::Sell {
                Err(MarketError::PriceMismatch)
            } else if b.price < s.price {
                Err(MarketError::PriceMismatch)
            } else if b.vintage_filter is Some && s.vintage_filter is Some && b.vintage_filter
                != s.vintage_filter {
                Err(MarketError::VintageMismatch)
            } else {
                Ok(())
            }
        }
    }

    /// The arithmetic of an allowed match stays within machine integers.
    pub open spec fn match_fits(self, buy_id: u64, sell_id: u64) -> bool {
        self.match_check(buy_id, sell_id) is Ok ==> {
            let f = fill_of(self.order(buy_id), self.order(sell_id), self.fee_rate);
            let value = self.order(sell_id).price * f.fill_qty;
            fits_i128(value) && fits_i128(value * self.fee_rate)
        }
    }

    /// What matching `buy_id` against `sell_id` answers.
    pub open spec fn match_result(self, buy_id: u64, sell_id: u64) -> Result<Fill, MarketError> {
        match self.match_check(buy_id, sell_id) {
            Err(e) => Err(e),
            Ok(_) => Ok(fill_of(self.order(buy_id), self.order(sell_id), self.fee_rate)),
        }
    }

    /// The state after fill `f`.
    pub open spec fn matched(self, f: Fill) -> MarketState {
        MarketState {
            orders: self.orders.update(
                f.buy_id - 1,
                after_fill(self.order(f.buy_id), f.fill_qty),
            ).update(f.sell_id - 1, after_fill(self.order(f.sell_id), f.fill_qty)),
            ..self
        }
    }

    /// The best order of a side, when it has one.
    pub open spec fn best_of(self, side: OrderSide) -> Option<Order> {
        if exists|o: Order| is_best(self.orders, o, side) {
            Some(choose|o: Order| is_best(self.orders, o, side))
        } else {
            None
        }
    }

    /// The ids of the best bid and best ask when the bid's price reaches
    /// the ask's.
    pub open spec fn crossing(self) -> Option<(u64, u64)> {
        match (self.best_of(OrderSide::Buy), self.best_of(OrderSide::Sell)) {
            (Some(b), Some(a)) => if b.price >= a.price {
                Some((b.order_id, a.order_id))
            } else {
                None
            },
            _ => None,
        }
    }

    /// Whether `fills` is the run of best-bid/best-ask matches from this
    /// state.
    pub open spec fn valid_run(self, fills: Seq<Fill>) -> bool
        decreases fills.len(),
    {
        if fills.len() == 0 {
            true
        } else {
            &&& self.crossing() == Some((fills[0].buy_id, fills[0].sell_id))
            &&& self.match_result(fills[0].buy_id, fills[0].sell_id) == Ok::<Fill, MarketError>(
                fills[0],
            )
            &&& self.matched(fills[0]).valid_run(fills.drop_first())
        }
    }

    /// The state after the fills of a run.
    pub open spec fn replay(self, fills: Seq<Fill>) -> MarketState
        decreases fills.len(),
    {
        if fills.len() == 0 {
            self
        } else {
            self.matched(fills[0]).replay(fills.drop_first())
        }
    }

    /// Every match that a run of best-bid/best-ask matches from this state
    /// would make stays within machine integers.
    pub open spec fn run_fits(self) -> bool {
        forall|fills: Seq<Fill>|
            #![trigger self.valid_run(fills)]
            self.valid_run(fills) ==> (self.replay(fills).crossing() matches Some(ids) ==> self.replay(
                fills,
            ).match_fits(ids.0, ids.1))
    }

    /// The checks that opening a position makes, in order.
    pub open spec fn open_check(self, strike: i128, qty: u64, expiry: u64, collateral: i128, now: u64) -> Result<(), MarketError> {
        if self.paused {
            Err(MarketError::ContractPaused)
        } else if strike <= 0 || qty == 0 || expiry <= now || collateral <= 0 {
            Err(MarketError::InvalidQuantity)
        } else if collateral < margin(qty * strike, INITIAL_MARGIN_BPS as int) {
            Err(MarketError::InsufficientCollateral)
        } else {
            Ok(())
        }
    }

    /// The checks that accepting position `id` makes, in order.
    pub open spec fn accept_check(self, caller: Address, id: u64, collateral: i128) -> Result<(), MarketError> {
        if self.paused {
            Err(MarketError::ContractPaused)
        } else if !self.has_position(id) {
            Err(MarketError::PositionNotFound)
        } else if self.position(id).state != PositionState::Pending {
            Err(MarketError::PositionNotActive)
        } else if self.position(id).counterparty_a == caller {
            Err(MarketError::Unauthorized)
        } else if collateral <= 0 {
            Err(MarketError::InsufficientCollateral)
        } else if collateral < margin(notional(self.position(id)), INITIAL_MARGIN_BPS as int) {
            Err(MarketError::InsufficientCollateral)
        } else {
            Ok(())
        }
    }

    /// The checks that adding collateral to position `id` makes, in order.
    pub open spec fn add_check(self, caller: Address, id: u64, amount: i128) -> Result<(), MarketError> {
        if self.paused {
            Err(MarketError::ContractPaused)
        } else if !self.has_position(id) {
            Err(MarketError::PositionNotFound)
        } else if self.position(id).state != PositionState::Active {
            Err(MarketError::PositionNotActive)
        } else if amount <= 0 {
            Err(MarketError::InsufficientCollateral)
        } else if caller != self.position(id).counterparty_a && Some(caller) != self.position(
            id,
        ).counterparty_b {
            Err(MarketError::Unauthorized)
        } else {
            Ok(())
        }
    }

    /// The checks that removing collateral from position `id` makes, in
    /// order.
    pub open spec fn remove_check(self, caller: Address, id: u64, amount: i128) -> Result<(), MarketError> {
        if self.paused {
            Err(MarketError::ContractPaused)
        } else if !self.has_position(id) {
            Err(MarketError::PositionNotFound)
        } else if self.position(id).state != PositionState::Active {
            Err(MarketError::PositionNotActive)
        } else if amount <= 0 {
            Err(MarketError::InsufficientCollateral)
        } else {
            let p = self.position(id);
            let min = margin(notional(p), INITIAL_MARGIN_BPS as int);
            if caller == p.counterparty_a {
                if amount > p.collateral_a {
                    Err(MarketError::InsufficientCollateral)
                } else if p.collateral_a - amount < min {
                    Err(MarketError::CollateralBelowMaintenance)
                } else {
                    Ok(())
                }
            } else if Some(caller) == p.counterparty_b {
                if amount > p.collateral_b {
                    Err(MarketError::InsufficientCollateral)
                } else if p.collateral_b - amount < min {
                    Err(MarketError::CollateralBelowMaintenance)
                } else {
                    Ok(())
                }
            } else {
                Err(MarketError::Unauthorized)
            }
        }
    }

    /// The state after `caller` adds `amount` to its collateral in position
    /// `id`.
    pub open spec fn added(self, caller: Address, id: u64, amount: i128) -> MarketState {
        let p = self.position(id);
        MarketState {
            positions: self.positions.update(
                id - 1,
                if caller == p.counterparty_a {
                    CfDPosition { collateral_a: (p.collateral_a + amount) as i128, ..p }
                } else {
                    CfDPosition { collateral_b: (p.collateral_b + amount) as i128, ..p }
                },
            ),
            ..self
        }
    }

    /// The state after `caller` takes `amount` of its collateral back from
    /// position `id`.
    pub open spec fn removed(self, caller: Address, id: u64, amount: i128) -> MarketState {
        let p = self.position(id);
        MarketState {
            positions: self.positions.update(
                id - 1,
                if caller == p.counterparty_a {
                    CfDPosition { collateral_a: (p.collateral_a - amount) as i128, ..p }
                } else {
                    CfDPosition { collateral_b: (p.collateral_b - amount) as i128, ..p }
                },
            ),
            ..self
        }
    }

    /// The checks that settling position `id` on behalf of `caller` at time
    /// `now` makes before the reference price is read: only a party of the
    /// position may settle it.
    pub open spec fn settle_ready(self, caller: Address, id: u64, now: u64) -> Result<(), MarketError> {
        if self.paused {
            Err(MarketError::ContractPaused)
        } else if !self.has_position(id) {
            Err(MarketError::PositionNotFound)
        } else if self.position(id).state != PositionState::Active {
            Err(MarketError::PositionNotActive)
        } else if caller != self.position(id).counterparty_a && Some(caller) != self.position(id).counterparty_b {
            Err(MarketError::Unauthorized)
        } else if now < self.position(id).settlement_date {
            Err(MarketError::PositionNotActive)
        } else {
            Ok(())
        }
    }

    /// The checks that settling position `id` on behalf of `caller` at time
    /// `now` against reference price `spot` makes.
    pub open spec fn settle_check(self, caller: Address, id: u64, now: u64, spot: i128) -> Result<(), MarketError> {
        match self.settle_ready(caller, id, now) {
            Err(e) => Err(e),
            Ok(_) => if spot <= 0 {
                Err(MarketError::PriceMismatch)
            } else {
                Ok(())
            },
        }
    }

    /// The checks that liquidating position `id` makes before the reference
    /// price is read.
    pub open spec fn liquidation_ready(self, id: u64) -> Result<(), MarketError> {
        if self.paused {
            Err(MarketError::ContractPaused)
        } else if !self.has_position(id) {
            Err(MarketError::PositionNotFound)
        } else if self.position(id).state != PositionState::Active {
            Err(MarketError::PositionNotActive)
        } else {
            Ok(())
        }
    }

    /// Whether position `p` is below maintenance margin at price `spot`:
    /// either party's collateral after the unrealised difference is under
    /// the maintenance share of the notional.
    pub open spec fn under_maintenance(p: CfDPosition, spot: int) -> bool {
        let mm = margin(notional(p), p.maintenance_margin_bps as int);
        p.collateral_a - payoff(p, spot) < mm || p.collateral_b + payoff(p, spot) < mm
    }

    /// The checks that liquidating position `id` against reference price
    /// `spot` makes.
    pub open spec fn liquidation_check(self, id: u64, spot: i128) -> Result<(), MarketError> {
        match self.liquidation_ready(id) {
            Err(e) => Err(e),
            Ok(_) => if !Self::under_maintenance(self.position(id), spot as int) {
                Err(MarketError::InsufficientCollateral)
            } else {
                Ok(())
            },
        }
    }

    /// The arithmetic of closing position `id` at `spot` stays within
    /// machine integers.
    pub open spec fn close_fits(self, id: u64, spot: i128) -> bool {
        let p = self.position(id);
        &&& fits_i128(spot - p.strike_price)
        &&& fits_i128(payoff(p, spot as int))
        &&& fits_i128(-payoff(p, spot as int))
        &&& fits_i128(p.collateral_a - payoff(p, spot as int))
        &&& fits_i128(p.collateral_b + payoff(p, spot as int))
        &&& fits_i128(p.collateral_a + p.collateral_b)
    }

    /// The settlement of position `id` at `spot`.
    pub open spec fn settlement(self, id: u64, spot: i128) -> Settlement {
        let p = self.position(id);
        let po = payoff(p, spot as int);
        let (pa, pb) = payouts(p.collateral_a as int, p.collateral_b as int, po);
        Settlement {
            position_id: id,
            spot_price: spot,
            payoff: po as i128,
            party_a: p.counterparty_a,
            party_b: p.counterparty_b.unwrap(),
            payout_a: pa as i128,
            payout_b: pb as i128,
        }
    }

    /// The state after position `id` closes into `state` at `now` with
    /// `payoff`.
    pub open spec fn closed(self, id: u64, state: PositionState, now: u64, payoff: i128) -> MarketState {
        MarketState {
            positions: self.positions.update(
                id - 1,
                CfDPosition {
                    state,
                    last_mtm_timestamp: now,
                    mtm_value: payoff,
                    ..self.position(id)
                },
            ),
            ..self
        }
    }
}

/// Number of orders of either side still in the book.
pub open spec fn live_total(s: Seq<Order>) -> nat
    decreases s.len(),
{
    if s.len() == 0 {
        0
    } else {
        live_total(s.drop_last()) + if live(s.last(), OrderSide::Buy) || live(
            s.last(),
            OrderSide::Sell,
        ) {
            1nat
        } else {
            0nat
        }
    }
}

spec fn ind_live(o: Order) -> int {
    if live(o, OrderSide::Buy) || live(o, OrderSide::Sell) {
        1
    } else {
        0
    }
}

proof fn lemma_live_update(s: Seq<Order>, i: int, o: Order)
    requires
        0 <= i < s.len(),
    ensures
        live_total(s.update(i, o)) + ind_live(s[i]) == live_total(s) + ind_live(o),
    decreases s.len(),
{
    if i == s.len() - 1 {
        assert(s.update(i, o).drop_last() =~= s.drop_last());
    } else {
        assert(s.update(i, o).drop_last() =~= s.drop_last().update(i, o));
        lemma_live_update(s.drop_last(), i, o);
    }
}

proof fn lemma_run_push(s: MarketState, f: Seq<Fill>, x: Fill)
    requires
        s.valid_run(f),
        s.replay(f).crossing() == Some((x.buy_id, x.sell_id)),
        s.replay(f).match_result(x.buy_id, x.sell_id) == Ok::<Fill, MarketError>(x),
    ensures
        s.valid_run(f.push(x)),
        s.replay(f.push(x)) == s.replay(f).matched(x),
    decreases f.len(),
{
    if f.len() == 0 {
        assert(s.replay(f) == s);
        assert(f.push(x).drop_first() =~= Seq::<Fill>::empty());
        assert(f.push(x)[0] == x);
        assert(s.matched(x).valid_run(f.push(x).drop_first()));
        assert(s.matched(x).replay(f.push(x).drop_first()) == s.matched(x));
    } else {
        assert(f.push(x).drop_first() =~= f.drop_first().push(x));
        assert(f.push(x)[0] == f[0]);
        assert(s.replay(f) == s.matched(f[0]).replay(f.drop_first()));
        lemma_run_push(s.matched(f[0]), f.drop_first(), x);
    }
}

/// A run is determined by its starting state: of two runs, the shorter is
/// a prefix of the longer.
proof fn lemma_run_prefix(s: MarketState, a: Seq<Fill>, b: Seq<Fill>)
    requires
        s.valid_run(a),
        s.valid_run(b),
        a.len() <= b.len(),
    ensures
        a == b.take(a.len() as int),
    decreases a.len(),
{
    if a.len() == 0 {
        assert(a =~= b.take(0));
    } else {
        assert(a[0] == b[0]);
        lemma_run_prefix(s.matched(a[0]), a.drop_first(), b.drop_first());
        assert forall|i: int| 0 <= i < a.len() implies a[i] == b.take(a.len() as int)[i] by {
            if i > 0 {
                assert(a[i] == a.drop_first()[i - 1]);
                assert(b.drop_first().take(a.len() - 1)[i - 1] == b[i]);
            }
        }
        assert(a =~= b.take(a.len() as int));
    }
}

/// Step `k` of a run is the crossing of the state the first `k` steps
/// reach, and matching it succeeds.
proof fn lemma_run_step(s: MarketState, f: Seq<Fill>, k: int)
    requires
        s.valid_run(f),
        0 <= k < f.len(),
    ensures
        s.replay(f.take(k)).crossing() == Some((f[k].buy_id, f[k].sell_id)),
        s.replay(f.take(k)).match_result(f[k].buy_id, f[k].sell_id) == Ok::<Fill, MarketError>(f[k]),
    decreases k,
{
    if k == 0 {
        assert(f.take(0) =~= Seq::<Fill>::empty());
    } else {
        lemma_run_step(s.matched(f[0]), f.drop_first(), k - 1);
        assert(f.take(k).drop_first() =~= f.drop_first().take(k - 1));
        assert(f.take(k)[0] == f[0]);
        assert(f.drop_first()[k - 1] == f[k]);
    }
}

/// Two states that differ only in their positions have the same book,
/// crossing and matches.
proof fn lemma_orders_only(s: MarketState, t: MarketState)
    requires
        t == (MarketState { positions: t.positions, ..s }),
    ensures
        t.crossing() == s.crossing(),
        forall|b: u64, a: u64| #[trigger] t.match_result(b, a) == s.match_result(b, a),
        forall|b: u64, a: u64| #[trigger] t.match_fits(b, a) == s.match_fits(b, a),
{
    assert(t.best_of(OrderSide::Buy) == s.best_of(OrderSide::Buy));
    assert(t.best_of(OrderSide::Sell) == s.best_of(OrderSide::Sell));
}

/// When a run ends (no crossing left, or its next match fails) and each of
/// its matches fit, every run from the same state fits.
proof fn lemma_run_fits_complete(s: MarketState, f: Seq<Fill>)
    requires
        s.valid_run(f),
        forall|k: int| 0 <= k < f.len() ==> s.replay(#[trigger] f.take(k)).match_fits(f[k].buy_id, f[k].sell_id),
        s.replay(f).crossing() matches Some(ids) ==> s.replay(f).match_result(ids.0, ids.1) is Err,
    ensures
        s.run_fits(),
{
    assert forall|g: Seq<Fill>| #[trigger] s.valid_run(g) implies (s.replay(g).crossing() matches Some(ids) ==> s.replay(g).match_fits(ids.0, ids.1)) by {
        if g.len() <= f.len() {
            lemma_run_prefix(s, g, f);
            if g.len() < f.len() {
                let k = g.len() as int;
                lemma_run_step(s, f, k);
                assert(s.replay(f.take(k)).match_fits(f[k].buy_id, f[k].sell_id));
            } else {
                assert(f.take(f.len() as int) =~= f);
            }
        } else {
            lemma_run_prefix(s, f, g);
            let k = f.len() as int;
            lemma_run_step(s, g, k);
            assert(false);
        }
    }
}

proof fn lemma_replay_frame(s: MarketState, f: Seq<Fill>)
    ensures
        s.replay(f) == (MarketState { orders: s.replay(f).orders, ..s }),
    decreases f.len(),
{
    if f.len() > 0 {
        lemma_replay_frame(s.matched(f[0]), f.drop_first());
    }
}

/// A match between a live buy and a live sell order takes at least one
/// order out of the book.
proof fn lemma_match_shrinks_book(s: MarketState, f: Fill)
    requires
        s.consistent(),
        s.match_result(f.buy_id, f.sell_id) == Ok::<Fill, MarketError>(f),
    ensures
        live_total(s.matched(f).orders) < live_total(s.orders),
{
    let b = s.order(f.buy_id);
    let a = s.order(f.sell_id);
    let b2 = after_fill(b, f.fill_qty);
    let a2 = after_fill(a, f.fill_qty);
    let s1 = s.orders.update(f.buy_id - 1, b2);
    lemma_live_update(s.orders, f.buy_id - 1, b2);
    assert(f.buy_id != f.sell_id);
    assert(s1[f.sell_id - 1] == a);
    lemma_live_update(s1, f.sell_id - 1, a2);
    assert(s.matched(f).orders == s1.update(f.sell_id - 1, a2));
}

/// A best order of a side is unique.
proof fn lemma_best_unique(store: Seq<Order>, o1: Order, o2: Order, side: OrderSide)
    requires
        is_best(store, o1, side),
        is_best(store, o2, side),
    ensures
        o1 == o2,
{
    if o1 != o2 {
        let i = choose|i: int| 0 <= i < store.len() && store[i] == o2;
        let j = choose|j: int| 0 <= j < store.len() && store[j] == o1;
        assert(ranks_before(o1, store[i], side));
        assert(ranks_before(o2, store[j], side));
    }
}

/// The marketplace's state.
pub struct MarketplaceContract {
    admin: Address,
    fee_rate: u32,
    rec_token: Option<Address>,
    usdc_token: Option<Address>,
    fee_vault: Option<Address>,
    oracle_handler: Option<Address>,
    paused: bool,
    orders: Vec<Order>,
    positions: Vec<CfDPosition>,
}

impl View for MarketplaceContract {
    type V = MarketState;

    closed spec fn view(&self) -> MarketState {
        MarketState {
            admin: self.admin,
            fee_rate: self.fee_rate,
            rec_token: self.rec_token,
            usdc_token: self.usdc_token,
            fee_vault: self.fee_vault,
            oracle_handler: self.oracle_handler,
            paused: self.paused,
            orders: self.orders@,
            positions: self.positions@,
        }
    }
}

/// Whether position `p` is consistent.
pub open spec fn position_wf(p: CfDPosition) -> bool {
    &&& p.strike_price > 0
    &&& p.quantity > 0
    &&& fits_i128(notional(p) * INITIAL_MARGIN_BPS)
    &&& p.maintenance_margin_bps == MAINTENANCE_MARGIN_BPS
    &&& p.collateral_a >= 0
    &&& p.collateral_b >= 0
    &&& (p.state == PositionState::Pending <==> p.counterparty_b is None)
    &&& (p.state == PositionState::Pending ==> p.collateral_b == 0)
    &&& p.collateral_a >= margin(notional(p), INITIAL_MARGIN_BPS as int)
    &&& (p.state != PositionState::Pending ==> p.collateral_b >= margin(notional(p), INITIAL_MARGIN_BPS as int))
}

/// Whether order `o` is consistent.
pub open spec fn order_wf(o: Order) -> bool {
    &&& o.remaining_qty <= o.initial_qty
    &&& (o.status == OrderStatus::Filled ==> o.remaining_qty == 0)
}

impl MarketState {
    /// The marketplace's consistency, as seen in its abstract state.
    pub open spec fn consistent(self) -> bool {
        &&& self.fee_rate <= FEE_CAP_BPS
        &&& self.orders.len() <= u64::MAX
        &&& self.positions.len() <= u64::MAX
        &&& forall|i: int| 0 <= i < self.orders.len() ==> (#[trigger] self.orders[i]).order_id == i + 1
        &&& forall|i: int| 0 <= i < self.orders.len() ==> order_wf(#[trigger] self.orders[i])
        &&& forall|i: int| 0 <= i < self.positions.len() ==> (#[trigger] self.positions[i]).position_id == i + 1
        &&& forall|i: int| 0 <= i < self.positions.len() ==> position_wf(#[trigger] self.positions[i])
    }
}

/// A marketplace's state as plain values, for storing between calls.
#[derive(Clone, Debug, PartialEq, Eq)]
pub struct MarketplaceData {
    pub admin: Address,
    pub fee_rate: u32,
    pub rec_token: Option<Address>,
    pub usdc_token: Option<Address>,
    pub fee_vault: Option<Address>,
    pub oracle_handler: Option<Address>,
    pub paused: bool,
    pub orders: Vec<Order>,
    pub positions: Vec<CfDPosition>,
}

impl MarketplaceData {
    /// The abstract state these values describe.
    pub open spec fn state(self) -> MarketState {
        MarketState {
            admin: self.admin,
            fee_rate: self.fee_rate,
            rec_token: self.rec_token,
            usdc_token: self.usdc_token,
            fee_vault: self.fee_vault,
            oracle_handler: self.oracle_handler,
            paused: self.paused,
            orders: self.orders@,
            positions: self.positions@,
        }
    }
}

/// Whether `o` is consistent.
fn check_order(o: &Order) -> (r: bool)
    ensures
        r == order_wf(*o),
{
    o.remaining_qty <= o.initial_qty && (o.status != OrderStatus::Filled || o.remaining_qty == 0)
}

/// Whether `p` is consistent.
fn check_position(p: &CfDPosition) -> (r: bool)
    ensures
        r == position_wf(*p),
{
    if p.strike_price <= 0 || p.quantity == 0 {
        return false;
    }
    let min_collateral = match (p.quantity as i128).checked_mul(p.strike_price) {
        Some(n) => match n.checked_mul(INITIAL_MARGIN_BPS as i128) {
            Some(m) => {
                proof {
                    assert(0 <= n) by (nonlinear_arith)
                        requires n == p.quantity * p.strike_price, p.quantity > 0, p.strike_price > 0;
                }
                m / 10000
            },
            None => {
                return false;
            },
        },
        None => {
            proof {
                assert(p.quantity * p.strike_price <= p.quantity * p.strike_price * INITIAL_MARGIN_BPS) by (nonlinear_arith)
                    requires p.quantity > 0, p.strike_price > 0;
            }
            return false;
        },
    };
    p.maintenance_margin_bps == MAINTENANCE_MARGIN_BPS && p.collateral_a >= 0 && p.collateral_b >= 0
        && (p.state == PositionState::Pending) == p.counterparty_b.is_none()
        && (p.state != PositionState::Pending || p.collateral_b == 0)
        && p.collateral_a >= min_collateral
        && (p.state == PositionState::Pending || p.collateral_b >= min_collateral)
}

impl MarketplaceContract {
    /// The marketplace rebuilt from stored values; `None` unless they
    /// describe a consistent state.
    pub fn restore(data: MarketplaceData) -> (r: Option<MarketplaceContract>)
        ensures
            r is Some <==> data.state().consistent(),
            r matches Some(m) ==> m.wf() && m@ == data.state(),
    {
        let ghost st = data.state();
        if data.fee_rate > FEE_CAP_BPS || data.orders.len() as u128 > u64::MAX as u128
            || data.positions.len() as u128 > u64::MAX as u128 {
            return None;
        }
        let mut i: usize = 0;
        while i < data.orders.len()
            invariant
                0 <= i <= data.orders@.len() <= u64::MAX,
                forall|j: int| 0 <= j < i ==> (#[trigger] data.orders@[j]).order_id == j + 1 && order_wf(data.orders@[j]),
            decreases data.orders@.len() - i,
        {
            if data.orders[i].order_id != i as u64 + 1 || !check_order(&data.orders[i]) {
                return None;
            }
            i = i + 1;
        }
        let mut k: usize = 0;
        while k < data.positions.len()
            invariant
                0 <= k <= data.positions@.len() <= u64::MAX,
                forall|j: int| 0 <= j < k ==> (#[trigger] data.positions@[j]).position_id == j + 1 && position_wf(data.positions@[j]),
            decreases data.positions@.len() - k,
        {
            if data.positions[k].position_id != k as u64 + 1 || !check_position(&data.positions[k]) {
                return None;
            }
            k = k + 1;
        }
        Some(MarketplaceContract {
            admin: data.admin,
            fee_rate: data.fee_rate,
            rec_token: data.rec_token,
            usdc_token: data.usdc_token,
            fee_vault: data.fee_vault,
            oracle_handler: data.oracle_handler,
            paused: data.paused,
            orders: data.orders,
            positions: data.positions,
        })
    }

    /// The marketplace's state as plain values.
    pub fn data(&self) -> (r: MarketplaceData)
        ensures
            r.state() == self@,
    {
        let orders = self.orders.clone();
        let positions = self.positions.clone();
        proof {
            assert(orders@ =~= self.orders@);
            assert(positions@ =~= self.positions@);
        }
        MarketplaceData {
            admin: self.admin,
            fee_rate: self.fee_rate,
            rec_token: self.rec_token,
            usdc_token: self.usdc_token,
            fee_vault: self.fee_vault,
            oracle_handler: self.oracle_handler,
            paused: self.paused,
            orders,
            positions,
        }
    }
}

impl MarketplaceContract {
    /// The marketplace's internal consistency.
    pub closed spec fn wf(&self) -> bool {
        self@.consistent()
    }

    /// A well-formed marketplace is consistent in its abstract state.
    pub proof fn lemma_wf_consistent(&self)
        requires
            self.wf(),
        ensures
            self@.consistent(),
    {
    }

    proof fn lemma_ids(&self)
        requires
            self.wf(),
        ensures
            ids_increasing(self.orders@),
    {
        assert forall|i: int, j: int| 0 <= i < j < self.orders@.len() implies (#[trigger] self.orders@[i]).order_id < (#[trigger] self.orders@[j]).order_id by {
            assert(self@.orders[i].order_id == i + 1);
            assert(self@.orders[j].order_id == j + 1);
        }
    }

    /// An empty marketplace run by `admin`, charging the default fee.
    pub fn new(admin: Address) -> (r: MarketplaceContract)
        ensures
            r.wf(),
            r@ == (MarketState {
                admin,
                fee_rate: DEFAULT_FEE_BPS,
                rec_token: None,
                usdc_token: None,
                fee_vault: None,
                oracle_handler: None,
                paused: false,
                orders: seq![],
                positions: seq![],
            }),
    {
        MarketplaceContract {
            admin,
            fee_rate: DEFAULT_FEE_BPS,
            rec_token: None,
            usdc_token: None,
            fee_vault: None,
            oracle_handler: None,
            paused: false,
            orders: Vec::new(),
            positions: Vec::new(),
        }
    }

    /// Places a limit order stamped with time `now`; its id is one past the
    /// last. Fails with `ContractPaused` while halted.
    pub fn place_order(
        &mut self,
        trader: Address,
        side: OrderSide,
        price: i128,
        qty: u64,
        restrictions: OrderRestriction,
        vintage_filter: Option<u32>,
        now: u64,
    ) -> (r: Result<u64, MarketError>)
        requires
            old(self).wf(),
            old(self)@.orders.len() < u64::MAX,
        ensures
            final(self).wf(),
            old(self)@.paused ==> r == Err::<u64, MarketError>(MarketError::ContractPaused)
                && final(self)@ == old(self)@,
            !old(self)@.paused ==> r == Ok::<u64, MarketError>((old(self)@.orders.len() + 1) as u64)
                && final(self)@ == (MarketState {
                orders: old(self)@.orders.push(
                    Order {
                        order_id: (old(self)@.orders.len() + 1) as u64,
                        trader,
                        side,
                        price,
                        initial_qty: qty,
                        remaining_qty: qty,
                        timestamp: now,
                        restrictions,
                        vintage_filter,
                        status: OrderStatus::Open,
                    },
                ),
                ..old(self)@
            }),
    {
        if self.paused {
            return Err(MarketError::ContractPaused);
        }
        let id = self.orders.len() as u64 + 1;
        self.orders.push(
            Order {
                order_id: id,
                trader,
                side,
                price,
                initial_qty: qty,
                remaining_qty: qty,
                timestamp: now,
                restrictions,
                vintage_filter,
                status: OrderStatus::Open,
            },
        );
        Ok(id)
    }

    /// Cancels open order `order_id` of `caller`. Fails with
    /// `OrderNotFound` for an unknown order, `Unauthorized` when `caller` is
    /// not its trader, and `OrderFilled` when it is no longer open.
    pub fn cancel_order(&mut self, caller: Address, order_id: u64) -> (r: Result<(), MarketError>)
        requires
            old(self).wf(),
        ensures
            final(self).wf(),
            !old(self)@.has_order(order_id) ==> r == Err::<(), MarketError>(MarketError::OrderNotFound),
            old(self)@.has_order(order_id) && old(self)@.order(order_id).trader != caller ==> r
                == Err::<(), MarketError>(MarketError::Unauthorized),
            old(self)@.has_order(order_id) && old(self)@.order(order_id).trader == caller
                && old(self)@.order(order_id).status != OrderStatus::Open ==> r == Err::<(), MarketError>(
                MarketError::OrderFilled,
            ),
            r is Err ==> final(self)@ == old(self)@,
            old(self)@.has_order(order_id) && old(self)@.order(order_id).trader == caller
                && old(self)@.order(order_id).status == OrderStatus::Open ==> r == Ok::<(), MarketError>(())
                && final(self)@ == (MarketState {
                orders: old(self)@.orders.update(
                    order_id - 1,
                    Order { status: OrderStatus::Cancelled, ..old(self)@.order(order_id) },
                ),
                ..old(self)@
            }),
    {
        if order_id < 1 || order_id > self.orders.len() as u64 {
            return Err(MarketError::OrderNotFound);
        }
        let i = (order_id - 1) as usize;
        let mut o = self.orders[i];
        if !o.trader.same(&caller) {
            return Err(MarketError::Unauthorized);
        }
        if o.status != OrderStatus::Open {
            return Err(MarketError::OrderFilled);
        }
        o.status = OrderStatus::Cancelled;
        self.orders.set(i, o);
        Ok(())
    }

    /// Order `order_id`; fails with `OrderNotFound` for an unknown one.
    pub fn get_order(&self, order_id: u64) -> (r: Result<Order, MarketError>)
        requires
            self.wf(),
        ensures
            self@.has_order(order_id) ==> r == Ok::<Order, MarketError>(self@.order(order_id)),
            !self@.has_order(order_id) ==> r == Err::<Order, MarketError>(MarketError::OrderNotFound),
    {
        if order_id < 1 || order_id > self.orders.len() as u64 {
            return Err(MarketError::OrderNotFound);
        }
        Ok(self.orders[(order_id - 1) as usize])
    }

    /// The best buy order, if any.
    pub fn get_best_bid(&self) -> (r: Option<Order>)
        requires
            self.wf(),
        ensures
            r == self@.best_of(OrderSide::Buy),
    {
        proof {
            self.lemma_ids();
        }
        let r = order_book::best_bid(&self.orders);
        proof {
            self.lemma_best_is_spec(r, OrderSide::Buy);
        }
        r
    }

    /// The best sell order, if any.
    pub fn get_best_ask(&self) -> (r: Option<Order>)
        requires
            self.wf(),
        ensures
            r == self@.best_of(OrderSide::Sell),
    {
        proof {
            self.lemma_ids();
        }
        let r = order_book::best_ask(&self.orders);
        proof {
            self.lemma_best_is_spec(r, OrderSide::Sell);
        }
        r
    }

    proof fn lemma_best_is_spec(&self, r: Option<Order>, side: OrderSide)
        requires
            r is None <==> forall|i: int| 0 <= i < self.orders@.len() ==> !live(#[trigger] self.orders@[i], side),
            r matches Some(o) ==> is_best(self.orders@, o, side),
        ensures
            r == self@.best_of(side),
    {
        match r {
            Some(o) => {
                assert(self@.orders == self.orders@);
                assert(is_best(self.orders@, o, side));
                let c = choose|c: Order| is_best(self.orders@, c, side);
                lemma_best_unique(self.orders@, o, c, side);
            },
            None => {
                assert(self@.orders == self.orders@);
                if exists|o: Order| is_best(self.orders@, o, side) {
                    let o = choose|o: Order| is_best(self.orders@, o, side);
                    let i = choose|i: int| 0 <= i < self.orders@.len() && self.orders@[i] == o;
                    assert(!live(self.orders@[i], side));
                }
            },
        }
    }

    /// The buy side of the book, best first.
    pub fn get_buy_orders(&self) -> (r: Vec<Order>)
        requires
            self.wf(),
        ensures
            is_book(self@.orders, r@, OrderSide::Buy),
    {
        proof {
            self.lemma_ids();
        }
        order_book::buy_orders(&self.orders)
    }

    /// The sell side of the book, best first.
    pub fn get_sell_orders(&self) -> (r: Vec<Order>)
        requires
            self.wf(),
        ensures
            is_book(self@.orders, r@, OrderSide::Sell),
    {
        proof {
            self.lemma_ids();
        }
        order_book::sell_orders(&self.orders)
    }

    /// Matches buy order `buy_id` against sell order `sell_id` at the sell
    /// price for the smaller remaining quantity, and charges the fee on the
    /// traded value. Each order that reaches zero becomes filled.
    pub fn match_orders(&mut self, buy_id: u64, sell_id: u64) -> (r: Result<Fill, MarketError>)
        requires
            old(self).wf(),
            old(self)@.match_fits(buy_id, sell_id),
        ensures
            final(self).wf(),
            r == old(self)@.match_result(buy_id, sell_id),
            r is Err ==> final(self)@ == old(self)@,
            r matches Ok(f) ==> final(self)@ == old(self)@.matched(f),
    {
        if self.paused {
            return Err(MarketError::ContractPaused);
        }
        let n = self.orders.len() as u64;
        if buy_id < 1 || buy_id > n || sell_id < 1 || sell_id > n {
            return Err(MarketError::OrderNotFound);
        }
        let bi = (buy_id - 1) as usize;
        let si = (sell_id - 1) as usize;
        let mut buy = self.orders[bi];
        let mut sell = self.orders[si];
        if buy.status != OrderStatus::Open || sell.status != OrderStatus::Open {
            return Err(MarketError::OrderFilled);
        }
        if buy.remaining_qty == 0 || sell.remaining_qty == 0 {
            return Err(MarketError::InvalidQuantity);
        }
        if buy.side != OrderSide::Buy || sell.side != OrderSide::Sell {
            return Err(MarketError::PriceMismatch);
        }
        if buy.price < sell.price {
            return Err(MarketError::PriceMismatch);
        }
        match (buy.vintage_filter, sell.vintage_filter) {
            (Some(bv), Some(sv)) => {
                if bv != sv {
                    return Err(MarketError::VintageMismatch);
                }
            },
            _ => {},
        }
        let fill_qty = if buy.remaining_qty < sell.remaining_qty {
            buy.remaining_qty
        } else {
            sell.remaining_qty
        };
        let fill_price = sell.price;
        let fill_value = fill_price * (fill_qty as i128);
        let fee = fill_value * (self.fee_rate as i128) / 10000;
        proof {
            assert(self.fee_rate <= FEE_CAP_BPS);
            if fill_value >= 0 {
                assert(0 <= fill_value * self.fee_rate / 10000 <= fill_value) by (nonlinear_arith)
                    requires fill_value >= 0, self.fee_rate <= 100;
            } else {
                assert(0 <= (-(fill_value * self.fee_rate)) / 10000 <= -fill_value) by (nonlinear_arith)
                    requires fill_value < 0, self.fee_rate <= 100;
            }
        }
        buy.remaining_qty = buy.remaining_qty - fill_qty;
        sell.remaining_qty = sell.remaining_qty - fill_qty;
        if buy.remaining_qty == 0 {
            buy.status = OrderStatus::Filled;
        }
        if sell.remaining_qty == 0 {
            sell.status = OrderStatus::Filled;
        }
        self.orders.set(bi, buy);
        self.orders.set(si, sell);
        Ok(
            Fill {
                buy_id,
                sell_id,
                buyer: buy.trader,
                seller: sell.trader,
                fill_qty,
                fill_price,
                fill_value,
                fee,
            },
        )
    }

    /// Repeatedly matches the best bid against the best ask while the bid's
    /// price reaches the ask's, and returns the fills in order. When a match
    /// fails, nothing is kept and its error is returned.
    pub fn auto_match(&mut self) -> (r: Result<Vec<Fill>, MarketError>)
        requires
            old(self).wf(),
            old(self)@.run_fits(),
        ensures
            final(self).wf(),
            r matches Ok(fills) ==> old(self)@.valid_run(fills@) && final(self)@ == old(self)@.replay(
                fills@,
            ) && final(self)@.crossing() is None,
            r matches Err(e) ==> final(self)@ == old(self)@ && exists|fills: Seq<Fill>|
                #![trigger old(self)@.valid_run(fills)]
                old(self)@.valid_run(fills) && (old(self)@.replay(fills).crossing() matches Some(ids)
                    && old(self)@.replay(fills).match_result(ids.0, ids.1) == Err::<Fill, MarketError>(e)),
    {
        let ghost s0 = self@;
        let saved = self.orders.clone();
        proof {
            assert(saved@ =~= self.orders@);
        }
        let mut fills: Vec<Fill> = Vec::new();
        proof {
            assert(s0.replay(fills@) == s0);
        }
        loop
            invariant
                self.wf(),
                s0 == old(self)@,
                s0.consistent(),
                s0.run_fits(),
                saved@ == s0.orders,
                s0.valid_run(fills@),
                self@ == s0.replay(fills@),
            decreases live_total(self@.orders),
        {
            let bid = self.get_best_bid();
            let ask = self.get_best_ask();
            let ids = match (bid, ask) {
                (Some(b), Some(a)) => {
                    if b.price >= a.price && b.remaining_qty > 0 && a.remaining_qty > 0 {
                        Some((b.order_id, a.order_id))
                    } else {
                        None
                    }
                },
                _ => None,
            };
            proof {
                if ids is None && bid is Some && ask is Some {
                    let b = bid.unwrap();
                    let a = ask.unwrap();
                    assert(is_best(self@.orders, b, OrderSide::Buy));
                    assert(is_best(self@.orders, a, OrderSide::Sell));
                }
            }
            match ids {
                None => {
                    proof {
                        assert(self@.crossing() is None);
                    }
                    return Ok(fills);
                },
                Some((b_id, a_id)) => {
                    proof {
                        assert(self@.crossing() == Some((b_id, a_id)));
                        assert(s0.valid_run(fills@));
                    }
                    let ghost before = self@;
                    match self.match_orders(b_id, a_id) {
                        Ok(f) => {
                            proof {
                                lemma_run_push(s0, fills@, f);
                                lemma_match_shrinks_book(before, f);
                            }
                            fills.push(f);
                        },
                        Err(e) => {
                            self.orders = saved;
                            proof {
                                lemma_replay_frame(s0, fills@);
                                assert(self@ =~= s0);
                                assert(s0.valid_run(fills@));
                                assert(before.match_result(b_id, a_id) == Err::<Fill, MarketError>(e));
                            }
                            return Err(e);
                        },
                    }
                },
            }
        }
    }

    /// Whether every match that `auto_match` would make from this state
    /// stays within machine integers; the run is played on a copy.
    pub fn auto_match_fits(&self) -> (r: bool)
        requires
            self.wf(),
        ensures
            r == self@.run_fits(),
    {
        let ghost s0 = self@;
        let orders = self.orders.clone();
        proof {
            assert(orders@ =~= self.orders@);
        }
        let mut sim = MarketplaceContract {
            admin: self.admin,
            fee_rate: self.fee_rate,
            rec_token: self.rec_token,
            usdc_token: self.usdc_token,
            fee_vault: self.fee_vault,
            oracle_handler: self.oracle_handler,
            paused: self.paused,
            orders,
            positions: Vec::new(),
        };
        let ghost mut fills: Seq<Fill> = Seq::empty();
        proof {
            assert(s0.replay(fills) == s0);
            assert(sim@ == (MarketState { positions: seq![], ..s0 }));
        }
        loop
            invariant
                sim.wf(),
                s0 == self@,
                s0.consistent(),
                s0.valid_run(fills),
                sim@ == (MarketState { positions: seq![], ..s0.replay(fills) }),
                forall|k: int| 0 <= k < fills.len() ==> s0.replay(#[trigger] fills.take(k)).match_fits(fills[k].buy_id, fills[k].sell_id),
            decreases live_total(sim@.orders),
        {
            proof {
                lemma_replay_frame(s0, fills);
                lemma_orders_only(s0.replay(fills), sim@);
            }
            let bid = sim.get_best_bid();
            let ask = sim.get_best_ask();
            let ids = match (bid, ask) {
                (Some(b), Some(a)) => {
                    if b.price >= a.price && b.remaining_qty > 0 && a.remaining_qty > 0 {
                        Some((b.order_id, a.order_id))
                    } else {
                        None
                    }
                },
                _ => None,
            };
            proof {
                if ids is None && bid is Some && ask is Some {
                    assert(is_best(sim@.orders, bid.unwrap(), OrderSide::Buy));
                    assert(is_best(sim@.orders, ask.unwrap(), OrderSide::Sell));
                }
            }
            match ids {
                None => {
                    proof {
                        assert(sim@.crossing() is None);
                        lemma_run_fits_complete(s0, fills);
                    }
                    return true;
                },
                Some((b_id, a_id)) => {
                    proof {
                        assert(sim@.crossing() == Some((b_id, a_id)));
                    }
                    if !sim.match_fits(b_id, a_id) {
                        proof {
                            assert(s0.valid_run(fills));
                        }
                        return false;
                    }
                    let ghost before = sim@;
                    match sim.match_orders(b_id, a_id) {
                        Ok(f) => {
                            proof {
                                lemma_run_push(s0, fills, f);
                                lemma_match_shrinks_book(before, f);
                                let nf = fills.push(f);
                                assert forall|k: int| 0 <= k < nf.len() implies s0.replay(#[trigger] nf.take(k)).match_fits(nf[k].buy_id, nf[k].sell_id) by {
                                    if k < fills.len() {
                                        assert(nf.take(k) =~= fills.take(k));
                                        assert(s0.replay(fills.take(k)).match_fits(fills[k].buy_id, fills[k].sell_id));
                                    } else {
                                        assert(nf.take(k) =~= fills);
                                    }
                                }
                                fills = nf;
                            }
                        },
                        Err(e) => {
                            proof {
                                lemma_run_fits_complete(s0, fills);
                            }
                            return true;
                        },
                    }
                },
            }
        }
    }

    /// Opens a position for `caller` as producer: strike, quantity,
    /// settlement date and the producer's collateral, which must cover the
    /// initial margin of the notional. Its id is one past the last.
    pub fn open_cfd(
        &mut self,
        caller: Address,
        strike: i128,
        qty: u64,
        expiry: u64,
        collateral: i128,
        now: u64,
    ) -> (r: Result<u64, MarketError>)
        requires
            old(self).wf(),
            old(self)@.positions.len() < u64::MAX,
            strike > 0 && qty > 0 ==> fits_i128(qty * strike * INITIAL_MARGIN_BPS),
        ensures
            final(self).wf(),
            r matches Err(e) ==> old(self)@.open_check(strike, qty, expiry, collateral, now) == Err::<(), MarketError>(e)
                && final(self)@ == old(self)@,
            old(self)@.open_check(strike, qty, expiry, collateral, now) is Err ==> r is Err,
            old(self)@.open_check(strike, qty, expiry, collateral, now) is Ok ==> r == Ok::<u64, MarketError>(
                (old(self)@.positions.len() + 1) as u64,
            ) && final(self)@ == (MarketState {
                positions: old(self)@.positions.push(
                    CfDPosition {
                        position_id: (old(self)@.positions.len() + 1) as u64,
                        counterparty_a: caller,
                        counterparty_b: None,
                        strike_price: strike,
                        quantity: qty,
                        settlement_date: expiry,
                        collateral_a: collateral,
                        collateral_b: 0,
                        maintenance_margin_bps: MAINTENANCE_MARGIN_BPS,
                        state: PositionState::Pending,
                        last_mtm_timestamp: 0,
                        mtm_value: 0,
                    },
                ),
                ..old(self)@
            }),
    {
        if self.paused {
            return Err(MarketError::ContractPaused);
        }
        if strike <= 0 || qty == 0 || expiry <= now || collateral <= 0 {
            return Err(MarketError::InvalidQuantity);
        }
        proof {
            assert(qty * strike <= qty * strike * INITIAL_MARGIN_BPS) by (nonlinear_arith)
                requires qty > 0, strike > 0;
            assert(0 <= qty * strike) by (nonlinear_arith)
                requires qty > 0, strike > 0;
        }
        let notional = (qty as i128) * strike;
        let min_collateral = notional * (INITIAL_MARGIN_BPS as i128) / 10000;
        if collateral < min_collateral {
            return Err(MarketError::InsufficientCollateral);
        }
        let id = self.positions.len() as u64 + 1;
        self.positions.push(
            CfDPosition {
                position_id: id,
                counterparty_a: caller,
                counterparty_b: None,
                strike_price: strike,
                quantity: qty,
                settlement_date: expiry,
                collateral_a: collateral,
                collateral_b: 0,
                maintenance_margin_bps: MAINTENANCE_MARGIN_BPS,
                state: PositionState::Pending,
                last_mtm_timestamp: 0,
                mtm_value: 0,
            },
        );
        Ok(id)
    }

    /// Position `position_id`, for reading.
    fn position_index(&self, position_id: u64) -> (r: Option<usize>)
        requires
            self.wf(),
        ensures
            r matches Some(i) ==> i == position_id - 1 && self@.has_position(position_id),
            r is None ==> !self@.has_position(position_id),
    {
        if position_id >= 1 && position_id <= self.positions.len() as u64 {
            Some((position_id - 1) as usize)
        } else {
            None
        }
    }

    /// `caller` takes the offtaker's side of pending position `position_id`
    /// with collateral covering the initial margin; the position becomes
    /// active.
    pub fn accept_cfd(&mut self, caller: Address, position_id: u64, collateral: i128) -> (r: Result<(), MarketError>)
        requires
            old(self).wf(),
        ensures
            final(self).wf(),
            r == old(self)@.accept_check(caller, position_id, collateral),
            r is Err ==> final(self)@ == old(self)@,
            r is Ok ==> final(self)@ == (MarketState {
                positions: old(self)@.positions.update(
                    position_id - 1,
                    CfDPosition {
                        counterparty_b: Some(caller),
                        collateral_b: collateral,
                        state: PositionState::Active,
                        ..old(self)@.position(position_id)
                    },
                ),
                ..old(self)@
            }),
    {
        if self.paused {
            return Err(MarketError::ContractPaused);
        }
        let i = match self.position_index(position_id) {
            Some(i) => i,
            None => {
                return Err(MarketError::PositionNotFound);
            },
        };
        let mut p = self.positions[i];
        if p.state != PositionState::Pending {
            return Err(MarketError::PositionNotActive);
        }
        if p.counterparty_a.same(&caller) {
            return Err(MarketError::Unauthorized);
        }
        if collateral <= 0 {
            return Err(MarketError::InsufficientCollateral);
        }
        proof {
            assert(position_wf(self@.positions[i as int]));
            assert(0 <= p.quantity * p.strike_price <= p.quantity * p.strike_price * INITIAL_MARGIN_BPS) by (nonlinear_arith)
                requires p.quantity > 0, p.strike_price > 0;
        }
        let notional = (p.quantity as i128) * p.strike_price;
        let min_collateral = notional * (INITIAL_MARGIN_BPS as i128) / 10000;
        if collateral < min_collateral {
            return Err(MarketError::InsufficientCollateral);
        }
        p.counterparty_b = Some(caller);
        p.collateral_b = collateral;
        p.state = PositionState::Active;
        self.positions.set(i, p);
        Ok(())
    }

    /// `caller`, a party of active position `position_id`, posts `amount`
    /// more collateral.
    pub fn add_collateral(&mut self, caller: Address, position_id: u64, amount: i128) -> (r: Result<(), MarketError>)
        requires
            old(self).wf(),
            old(self)@.add_check(caller, position_id, amount) is Ok ==> (if caller == old(self)@.position(position_id).counterparty_a {
                fits_i128(old(self)@.position(position_id).collateral_a + amount)
            } else {
                fits_i128(old(self)@.position(position_id).collateral_b + amount)
            }),
        ensures
            final(self).wf(),
            r == old(self)@.add_check(caller, position_id, amount),
            r is Err ==> final(self)@ == old(self)@,
            r is Ok ==> final(self)@ == old(self)@.added(caller, position_id, amount),
    {
        if self.paused {
            return Err(MarketError::ContractPaused);
        }
        let i = match self.position_index(position_id) {
            Some(i) => i,
            None => {
                return Err(MarketError::PositionNotFound);
            },
        };
        let mut p = self.positions[i];
        if p.state != PositionState::Active {
            return Err(MarketError::PositionNotActive);
        }
        if amount <= 0 {
            return Err(MarketError::InsufficientCollateral);
        }
        let is_b = match p.counterparty_b {
            Some(b) => b.same(&caller),
            None => false,
        };
        if p.counterparty_a.same(&caller) {
            p.collateral_a = p.collateral_a + amount;
        } else if is_b {
            p.collateral_b = p.collateral_b + amount;
        } else {
            return Err(MarketError::Unauthorized);
        }
        self.positions.set(i, p);
        Ok(())
    }

    /// `caller`, a party of active position `position_id`, takes back
    /// `amount` of its collateral, keeping at least the initial margin.
    pub fn remove_collateral(&mut self, caller: Address, position_id: u64, amount: i128) -> (r: Result<(), MarketError>)
        requires
            old(self).wf(),
        ensures
            final(self).wf(),
            r == old(self)@.remove_check(caller, position_id, amount),
            r is Err ==> final(self)@ == old(self)@,
            r is Ok ==> final(self)@ == old(self)@.removed(caller, position_id, amount),
    {
        if self.paused {
            return Err(MarketError::ContractPaused);
        }
        let i = match self.position_index(position_id) {
            Some(i) => i,
            None => {
                return Err(MarketError::PositionNotFound);
            },
        };
        let mut p = self.positions[i];
        if p.state != PositionState::Active {
            return Err(MarketError::PositionNotActive);
        }
        if amount <= 0 {
            return Err(MarketError::InsufficientCollateral);
        }
        proof {
            assert(position_wf(self@.positions[i as int]));
            assert(0 <= p.quantity * p.strike_price <= p.quantity * p.strike_price * INITIAL_MARGIN_BPS) by (nonlinear_arith)
                requires p.quantity > 0, p.strike_price > 0;
        }
        let is_b = match p.counterparty_b {
            Some(b) => b.same(&caller),
            None => false,
        };
        if p.counterparty_a.same(&caller) {
            if amount > p.collateral_a {
                return Err(MarketError::InsufficientCollateral);
            }
            let remaining = p.collateral_a - amount;
            let notional = (p.quantity as i128) * p.strike_price;
            let min_collateral = notional * (INITIAL_MARGIN_BPS as i128) / 10000;
            if remaining < min_collateral {
                return Err(MarketError::CollateralBelowMaintenance);
            }
            p.collateral_a = remaining;
        } else if is_b {
            if amount > p.collateral_b {
                return Err(MarketError::InsufficientCollateral);
            }
            let remaining = p.collateral_b - amount;
            let notional = (p.quantity as i128) * p.strike_price;
            let min_collateral = notional * (INITIAL_MARGIN_BPS as i128) / 10000;
            if remaining < min_collateral {
                return Err(MarketError::CollateralBelowMaintenance);
            }
            p.collateral_b = remaining;
        } else {
            return Err(MarketError::Unauthorized);
        }
        self.positions.set(i, p);
        Ok(())
    }

    /// Position `position_id`; fails with `PositionNotFound` for an unknown
    /// one.
    pub fn get_cfd(&self, position_id: u64) -> (r: Result<CfDPosition, MarketError>)
        requires
            self.wf(),
        ensures
            self@.has_position(position_id) ==> r == Ok::<CfDPosition, MarketError>(self@.position(position_id)),
            !self@.has_position(position_id) ==> r == Err::<CfDPosition, MarketError>(MarketError::PositionNotFound),
    {
        match self.position_index(position_id) {
            Some(i) => Ok(self.positions[i]),
            None => Err(MarketError::PositionNotFound),
        }
    }

    /// The checks settling position `position_id` on behalf of `caller` at
    /// time `now` makes before the reference price is read.
    pub fn settle_ready(&self, caller: Address, position_id: u64, now: u64) -> (r: Result<(), MarketError>)
        requires
            self.wf(),
        ensures
            r == self@.settle_ready(caller, position_id, now),
    {
        if self.paused {
            return Err(MarketError::ContractPaused);
        }
        let i = match self.position_index(position_id) {
            Some(i) => i,
            None => {
                return Err(MarketError::PositionNotFound);
            },
        };
        if self.positions[i].state != PositionState::Active {
            return Err(MarketError::PositionNotActive);
        }
        let p = self.positions[i];
        let is_b = match p.counterparty_b {
            Some(b) => b.same(&caller),
            None => false,
        };
        if !p.counterparty_a.same(&caller) && !is_b {
            return Err(MarketError::Unauthorized);
        }
        if now < self.positions[i].settlement_date {
            return Err(MarketError::PositionNotActive);
        }
        Ok(())
    }

    /// The checks liquidating position `position_id` makes before the
    /// reference price is read.
    pub fn liquidation_ready(&self, position_id: u64) -> (r: Result<(), MarketError>)
        requires
            self.wf(),
        ensures
            r == self@.liquidation_ready(position_id),
    {
        if self.paused {
            return Err(MarketError::ContractPaused);
        }
        let i = match self.position_index(position_id) {
            Some(i) => i,
            None => {
                return Err(MarketError::PositionNotFound);
            },
        };
        if self.positions[i].state != PositionState::Active {
            return Err(MarketError::PositionNotActive);
        }
        Ok(())
    }

    /// Closes position at index `i` into `state` at reference price `spot`.
    fn close(&mut self, i: usize, state: PositionState, now: u64, spot: i128) -> (r: Settlement)
        requires
            old(self).wf(),
            i < old(self)@.positions.len(),
            old(self)@.positions[i as int].state == PositionState::Active,
            old(self)@.close_fits((i + 1) as u64, spot),
            state == PositionState::Settled || state == PositionState::Liquidated,
        ensures
            final(self).wf(),
            r == old(self)@.settlement((i + 1) as u64, spot),
            final(self)@ == old(self)@.closed((i + 1) as u64, state, now, r.payoff),
    {
        let mut p = self.positions[i];
        proof {
            assert(position_wf(self@.positions[i as int]));
            assert(p.position_id == i + 1);
        }
        let diff = spot - p.strike_price;
        let payoff = diff * (p.quantity as i128);
        let mut final_a = p.collateral_a;
        let mut final_b = p.collateral_b;
        if payoff > 0 {
            if payoff > final_a {
                final_b = final_b + final_a;
                final_a = 0;
            } else {
                final_a = final_a - payoff;
                final_b = final_b + payoff;
            }
        } else if payoff < 0 {
            let abs_payoff = -payoff;
            if abs_payoff > final_b {
                final_a = final_a + final_b;
                final_b = 0;
            } else {
                final_b = final_b - abs_payoff;
                final_a = final_a + abs_payoff;
            }
        }
        let party_b = match p.counterparty_b {
            Some(b) => b,
            None => p.counterparty_a,
        };
        p.state = state;
        p.last_mtm_timestamp = now;
        p.mtm_value = payoff;
        self.positions.set(i, p);
        Settlement {
            position_id: p.position_id,
            spot_price: spot,
            payoff,
            party_a: p.counterparty_a,
            party_b,
            payout_a: final_a,
            payout_b: final_b,
        }
    }

    /// Settles active position `position_id` on behalf of `caller`, one of
    /// its parties, at time `now`, on or after its settlement date, against
    /// reference price `spot`: the party on the losing side pays the
    /// difference times the quantity out of its collateral, and both
    /// collaterals are paid back.
    pub fn settle_cfd(&mut self, caller: Address, position_id: u64, now: u64, spot: i128) -> (r: Result<Settlement, MarketError>)
        requires
            old(self).wf(),
            old(self)@.settle_check(caller, position_id, now, spot) is Ok ==> old(self)@.close_fits(position_id, spot),
        ensures
            final(self).wf(),
            r matches Err(e) ==> old(self)@.settle_check(caller, position_id, now, spot) == Err::<(), MarketError>(e)
                && final(self)@ == old(self)@,
            old(self)@.settle_check(caller, position_id, now, spot) is Err ==> r is Err,
            old(self)@.settle_check(caller, position_id, now, spot) is Ok ==> r == Ok::<Settlement, MarketError>(
                old(self)@.settlement(position_id, spot),
            ) && final(self)@ == old(self)@.closed(
                position_id,
                PositionState::Settled,
                now,
                old(self)@.settlement(position_id, spot).payoff,
            ),
    {
        match self.settle_ready(caller, position_id, now) {
            Err(e) => {
                return Err(e);
            },
            Ok(_) => {},
        }
        if spot <= 0 {
            return Err(MarketError::PriceMismatch);
        }
        let i = match self.position_index(position_id) {
            Some(i) => i,
            None => {
                return Err(MarketError::PositionNotFound);
            },
        };
        Ok(self.close(i, PositionState::Settled, now, spot))
    }

    /// Liquidates active position `position_id` at time `now` when, at
    /// reference price `spot`, either party's collateral after the
    /// unrealised difference is below the maintenance margin; it is then
    /// closed as a settlement would close it.
    pub fn liquidate(&mut self, position_id: u64, now: u64, spot: i128) -> (r: Result<Settlement, MarketError>)
        requires
            old(self).wf(),
            old(self)@.liquidation_ready(position_id) is Ok ==> old(self)@.close_fits(position_id, spot),
        ensures
            final(self).wf(),
            r matches Err(e) ==> old(self)@.liquidation_check(position_id, spot) == Err::<(), MarketError>(e)
                && final(self)@ == old(self)@,
            old(self)@.liquidation_check(position_id, spot) is Err ==> r is Err,
            old(self)@.liquidation_check(position_id, spot) is Ok ==> r == Ok::<Settlement, MarketError>(
                old(self)@.settlement(position_id, spot),
            ) && final(self)@ == old(self)@.closed(
                position_id,
                PositionState::Liquidated,
                now,
                old(self)@.settlement(position_id, spot).payoff,
            ),
    {
        match self.liquidation_ready(position_id) {
            Err(e) => {
                return Err(e);
            },
            Ok(_) => {},
        }
        let i = match self.position_index(position_id) {
            Some(i) => i,
            None => {
                return Err(MarketError::PositionNotFound);
            },
        };
        let p = self.positions[i];
        proof {
            assert(position_wf(self@.positions[i as int]));
            assert(0 <= p.quantity * p.strike_price <= p.quantity * p.strike_price * INITIAL_MARGIN_BPS) by (nonlinear_arith)
                requires p.quantity > 0, p.strike_price > 0;
            assert(0 <= p.quantity * p.strike_price * MAINTENANCE_MARGIN_BPS <= p.quantity * p.strike_price * INITIAL_MARGIN_BPS) by (nonlinear_arith)
                requires p.quantity > 0, p.strike_price > 0;
        }
        let diff = spot - p.strike_price;
        let payoff = diff * (p.quantity as i128);
        let notional = (p.quantity as i128) * p.strike_price;
        let mm_amount = notional * (p.maintenance_margin_bps as i128) / 10000;
        let current_val_a = p.collateral_a - payoff;
        let current_val_b = p.collateral_b + payoff;
        if !(current_val_a < mm_amount || current_val_b < mm_amount) {
            return Err(MarketError::InsufficientCollateral);
        }
        Ok(self.close(i, PositionState::Liquidated, now, spot))
    }

    /// The checks matching `buy_id` against `sell_id` makes.
    pub fn match_ready(&self, buy_id: u64, sell_id: u64) -> (r: Result<(), MarketError>)
        requires
            self.wf(),
        ensures
            r == self@.match_check(buy_id, sell_id),
    {
        if self.paused {
            return Err(MarketError::ContractPaused);
        }
        let n = self.orders.len() as u64;
        if buy_id < 1 || buy_id > n || sell_id < 1 || sell_id > n {
            return Err(MarketError::OrderNotFound);
        }
        let buy = self.orders[(buy_id - 1) as usize];
        let sell = self.orders[(sell_id - 1) as usize];
        if buy.status != OrderStatus::Open || sell.status != OrderStatus::Open {
            return Err(MarketError::OrderFilled);
        }
        if buy.remaining_qty == 0 || sell.remaining_qty == 0 {
            return Err(MarketError::InvalidQuantity);
        }
        if buy.side != OrderSide::Buy || sell.side != OrderSide::Sell {
            return Err(MarketError::PriceMismatch);
        }
        if buy.price < sell.price {
            return Err(MarketError::PriceMismatch);
        }
        match (buy.vintage_filter, sell.vintage_filter) {
            (Some(bv), Some(sv)) => {
                if bv != sv {
                    return Err(MarketError::VintageMismatch);
                }
            },
            _ => {},
        }
        Ok(())
    }

    /// Whether the arithmetic of matching `buy_id` against `sell_id` stays
    /// within machine integers.
    pub fn match_fits(&self, buy_id: u64, sell_id: u64) -> (r: bool)
        requires
            self.wf(),
        ensures
            r == self@.match_fits(buy_id, sell_id),
    {
        if self.match_ready(buy_id, sell_id).is_err() {
            return true;
        }
        let n = self.orders.len() as u64;
        if buy_id < 1 || buy_id > n || sell_id < 1 || sell_id > n {
            return true;
        }
        let buy = self.orders[(buy_id - 1) as usize];
        let sell = self.orders[(sell_id - 1) as usize];
        let q = if buy.remaining_qty < sell.remaining_qty {
            buy.remaining_qty
        } else {
            sell.remaining_qty
        };
        match sell.price.checked_mul(q as i128) {
            Some(v) => v.checked_mul(self.fee_rate as i128).is_some(),
            None => false,
        }
    }

    /// Whether the arithmetic of closing position `position_id` at `spot`
    /// stays within machine integers.
    fn close_fits_at(&self, i: usize, spot: i128) -> (r: bool)
        requires
            self.wf(),
            i < self@.positions.len(),
        ensures
            r == self@.close_fits((i + 1) as u64, spot),
    {
        let p = self.positions[i];
        let diff = match spot.checked_sub(p.strike_price) {
            Some(d) => d,
            None => {
                return false;
            },
        };
        let payoff = match diff.checked_mul(p.quantity as i128) {
            Some(x) => x,
            None => {
                return false;
            },
        };
        payoff != i128::MIN && p.collateral_a.checked_sub(payoff).is_some() && p.collateral_b.checked_add(payoff).is_some()
            && p.collateral_a.checked_add(p.collateral_b).is_some()
    }

    /// Whether the arithmetic of settling position `position_id` at time
    /// `now` against `spot`, when the checks pass, stays within machine
    /// integers.
    pub fn settle_fits(&self, caller: Address, position_id: u64, now: u64, spot: i128) -> (r: bool)
        requires
            self.wf(),
        ensures
            r == (self@.settle_check(caller, position_id, now, spot) is Ok ==> self@.close_fits(position_id, spot)),
    {
        if self.settle_ready(caller, position_id, now).is_err() || spot <= 0 {
            return true;
        }
        match self.position_index(position_id) {
            Some(i) => self.close_fits_at(i, spot),
            None => true,
        }
    }

    /// Whether the arithmetic of liquidating position `position_id` against
    /// `spot`, once it is active, stays within machine integers.
    pub fn liquidation_fits(&self, position_id: u64, spot: i128) -> (r: bool)
        requires
            self.wf(),
        ensures
            r == (self@.liquidation_ready(position_id) is Ok ==> self@.close_fits(position_id, spot)),
    {
        if self.liquidation_ready(position_id).is_err() {
            return true;
        }
        match self.position_index(position_id) {
            Some(i) => self.close_fits_at(i, spot),
            None => true,
        }
    }

    /// Whether adding `amount` to the collateral of `caller` in position
    /// `position_id`, when the checks pass, stays within machine integers.
    pub fn add_collateral_fits(&self, caller: Address, position_id: u64, amount: i128) -> (r: bool)
        requires
            self.wf(),
        ensures
            r == (self@.add_check(caller, position_id, amount) is Ok ==> (if caller == self@.position(position_id).counterparty_a {
                fits_i128(self@.position(position_id).collateral_a + amount)
            } else {
                fits_i128(self@.position(position_id).collateral_b + amount)
            })),
    {
        if self.paused {
            return true;
        }
        let i = match self.position_index(position_id) {
            Some(i) => i,
            None => {
                return true;
            },
        };
        let p = self.positions[i];
        let is_b = match p.counterparty_b {
            Some(b) => b.same(&caller),
            None => false,
        };
        if p.state != PositionState::Active || amount <= 0 || (!p.counterparty_a.same(&caller) && !is_b) {
            return true;
        }
        if p.counterparty_a.same(&caller) {
            p.collateral_a.checked_add(amount).is_some()
        } else {
            p.collateral_b.checked_add(amount).is_some()
        }
    }

    /// The administrator.
    pub fn admin(&self) -> (r: Address)
        ensures
            r == self@.admin,
    {
        self.admin
    }

    /// Hands administration to `new_admin`.
    pub fn transfer_admin(&mut self, new_admin: Address)
        requires
            old(self).wf(),
        ensures
            final(self).wf(),
            final(self)@ == (MarketState { admin: new_admin, ..old(self)@ }),
    {
        self.admin = new_admin;
    }

    /// Sets the trading fee; fails with `FeeCapExceeded` above the cap.
    pub fn set_fee_rate(&mut self, rate: u32) -> (r: Result<(), MarketError>)
        requires
            old(self).wf(),
        ensures
            final(self).wf(),
            rate > FEE_CAP_BPS ==> r == Err::<(), MarketError>(MarketError::FeeCapExceeded)
                && final(self)@ == old(self)@,
            rate <= FEE_CAP_BPS ==> r == Ok::<(), MarketError>(()) && final(self)@ == (MarketState { fee_rate: rate, ..old(self)@ }),
    {
        if rate > FEE_CAP_BPS {
            return Err(MarketError::FeeCapExceeded);
        }
        self.fee_rate = rate;
        Ok(())
    }

    /// The trading fee in basis points.
    pub fn fee_rate(&self) -> (r: u32)
        ensures
            r == self@.fee_rate,
    {
        self.fee_rate
    }

    /// Sets the certificate token contract.
    pub fn set_rec_token(&mut self, id: Address)
        requires
            old(self).wf(),
        ensures
            final(self).wf(),
            final(self)@ == (MarketState { rec_token: Some(id), ..old(self)@ }),
    {
        self.rec_token = Some(id);
    }

    /// The certificate token contract, once set.
    pub fn rec_token(&self) -> (r: Option<Address>)
        ensures
            r == self@.rec_token,
    {
        self.rec_token
    }

    /// Sets the settlement currency contract.
    pub fn set_usdc_token(&mut self, id: Address)
        requires
            old(self).wf(),
        ensures
            final(self).wf(),
            final(self)@ == (MarketState { usdc_token: Some(id), ..old(self)@ }),
    {
        self.usdc_token = Some(id);
    }

    /// The settlement currency contract, once set.
    pub fn usdc_token(&self) -> (r: Option<Address>)
        ensures
            r == self@.usdc_token,
    {
        self.usdc_token
    }

    /// Sets the account that receives trading fees.
    pub fn set_fee_vault(&mut self, addr: Address)
        requires
            old(self).wf(),
        ensures
            final(self).wf(),
            final(self)@ == (MarketState { fee_vault: Some(addr), ..old(self)@ }),
    {
        self.fee_vault = Some(addr);
    }

    /// The account that receives trading fees, once set.
    pub fn fee_vault(&self) -> (r: Option<Address>)
        ensures
            r == self@.fee_vault,
    {
        self.fee_vault
    }

    /// Sets the oracle handler that quotes the reference price.
    pub fn set_oracle_handler(&mut self, addr: Address)
        requires
            old(self).wf(),
        ensures
            final(self).wf(),
            final(self)@ == (MarketState { oracle_handler: Some(addr), ..old(self)@ }),
    {
        self.oracle_handler = Some(addr);
    }

    /// The oracle handler, once set.
    pub fn oracle_handler(&self) -> (r: Option<Address>)
        ensures
            r == self@.oracle_handler,
    {
        self.oracle_handler
    }

    /// Halts trading and positions.
    pub fn pause(&mut self)
        requires
            old(self).wf(),
        ensures
            final(self).wf(),
            final(self)@ == (MarketState { paused: true, ..old(self)@ }),
    {
        self.paused = true;
    }

    /// Lifts a halt.
    pub fn resume(&mut self)
        requires
            old(self).wf(),
        ensures
            final(self).wf(),
            final(self)@ == (MarketState { paused: false, ..old(self)@ }),
    {
        self.paused = false;
    }

    /// Whether the marketplace is halted.
    pub fn paused(&self) -> (r: bool)
        ensures
            r == self@.paused,
    {
        self.paused
    }
}

} // verus!

verus! {

/// Closing a position pays back exactly the collateral both parties
/// posted, never a negative amount to either; when the losing side can
/// cover the difference, it pays exactly the difference.
pub proof fn law_settlement_conserves_collateral(a: int, b: int, payoff: int)
    requires
        a >= 0,
        b >= 0,
    ensures
        payouts(a, b, payoff).0 + payouts(a, b, payoff).1 == a + b,
        payouts(a, b, payoff).0 >= 0,
        payouts(a, b, payoff).1 >= 0,
        -b <= payoff <= a ==> payouts(a, b, payoff) == (a - payoff, b + payoff),
{
}

/// A match trades the smaller remaining quantity at the sell price, which
/// the buy price reaches, and leaves at least one of the two orders filled.
pub proof fn law_match_fills_one_side(s: MarketState, buy_id: u64, sell_id: u64)
    requires
        s.match_result(buy_id, sell_id) is Ok,
    ensures
        ({
            let f = s.match_result(buy_id, sell_id)->Ok_0;
            let b = s.order(buy_id);
            let o = s.order(sell_id);
            &&& f.fill_qty == if b.remaining_qty < o.remaining_qty {
                b.remaining_qty
            } else {
                o.remaining_qty
            }
            &&& f.fill_price == o.price
            &&& o.price <= b.price
            &&& after_fill(b, f.fill_qty).status == OrderStatus::Filled || after_fill(
                o,
                f.fill_qty,
            ).status == OrderStatus::Filled
        }),
{
}

/// The seller of a fill receives its whole value, the sell price times
/// the traded quantity, and the buyer pays the fee on top of it: the rate
/// applied to that value, rounded toward zero, never more than the value.
pub proof fn law_fill_pays_in_full(s: MarketState, buy_id: u64, sell_id: u64)
    requires
        s.consistent(),
        s.match_result(buy_id, sell_id) is Ok,
        s.match_fits(buy_id, sell_id),
    ensures
        ({
            let f = s.match_result(buy_id, sell_id)->Ok_0;
            &&& f.fill_value == f.fill_price * f.fill_qty
            &&& f.fee == trunc_div(f.fill_value * s.fee_rate, 10000)
            &&& (f.fill_value >= 0 ==> 0 <= f.fee <= f.fill_value)
        }),
{
    let f = s.match_result(buy_id, sell_id)->Ok_0;
    let value = s.order(sell_id).price * f.fill_qty;
    law_fee_bounded(value, s.fee_rate as int);
}

/// Adding collateral and then taking the same amount back restores the
/// position.
pub proof fn law_add_then_remove_restores(s: MarketState, caller: Address, id: u64, amount: i128)
    requires
        s.consistent(),
        s.add_check(caller, id, amount) is Ok,
        if caller == s.position(id).counterparty_a {
            fits_i128(s.position(id).collateral_a + amount)
        } else {
            fits_i128(s.position(id).collateral_b + amount)
        },
    ensures
        s.added(caller, id, amount).remove_check(caller, id, amount) is Ok,
        s.added(caller, id, amount).removed(caller, id, amount) == s,
{
    let s1 = s.added(caller, id, amount);
    assert(position_wf(s.positions[id - 1]));
    assert(s1.position(id) == s1.positions[id - 1]);
    assert(s1.removed(caller, id, amount).positions =~= s.positions);
}

/// The fee of a fill has the sign of the traded value and at most its
/// size, at any rate up to the cap.
pub proof fn law_fee_bounded(value: int, rate: int)
    requires
        0 <= rate <= FEE_CAP_BPS,
    ensures
        value >= 0 ==> 0 <= trunc_div(value * rate, 10000) <= value,
        value < 0 ==> value <= trunc_div(value * rate, 10000) <= 0,
{
    if value >= 0 {
        assert(0 <= value * rate / 10000 <= value) by (nonlinear_arith)
            requires value >= 0, 0 <= rate <= 100;
    } else {
        assert(0 <= (-(value * rate)) / 10000 <= -value) by (nonlinear_arith)
            requires value < 0, 0 <= rate <= 100;
    }
}

/// A settled or liquidated position is final: no operation on it is
/// accepted any more.
pub proof fn law_closed_position_is_final(s: MarketState, id: u64, caller: Address, amount: i128, now: u64)
    requires
        !s.paused,
        s.has_position(id),
        s.position(id).state == PositionState::Settled || s.position(id).state
            == PositionState::Liquidated,
    ensures
        s.accept_check(caller, id, amount) == Err::<(), MarketError>(MarketError::PositionNotActive),
        s.add_check(caller, id, amount) == Err::<(), MarketError>(MarketError::PositionNotActive),
        s.remove_check(caller, id, amount) == Err::<(), MarketError>(MarketError::PositionNotActive),
        s.settle_ready(caller, id, now) == Err::<(), MarketError>(MarketError::PositionNotActive),
        s.liquidation_ready(id) == Err::<(), MarketError>(MarketError::PositionNotActive),
{
}

/// While the marketplace is halted, matching and every position
/// operation are refused with `ContractPaused`.
pub proof fn law_pause_blocks_trading(s: MarketState, caller: Address, buy_id: u64, sell_id: u64, id: u64, strike: i128, qty: u64, expiry: u64, amount: i128, now: u64)
    requires
        s.paused,
    ensures
        s.match_check(buy_id, sell_id) == Err::<(), MarketError>(MarketError::ContractPaused),
        s.open_check(strike, qty, expiry, amount, now) == Err::<(), MarketError>(MarketError::ContractPaused),
        s.accept_check(caller, id, amount) == Err::<(), MarketError>(MarketError::ContractPaused),
        s.add_check(caller, id, amount) == Err::<(), MarketError>(MarketError::ContractPaused),
        s.remove_check(caller, id, amount) == Err::<(), MarketError>(MarketError::ContractPaused),
        s.settle_ready(caller, id, now) == Err::<(), MarketError>(MarketError::ContractPaused),
        s.liquidation_ready(id) == Err::<(), MarketError>(MarketError::ContractPaused),
{
}

/// A match keeps every order consistent: what is left never exceeds what
/// was placed, and it shrinks by the traded quantity on both sides.
pub proof fn law_match_keeps_orders_consistent(s: MarketState, buy_id: u64, sell_id: u64)
    requires
        s.consistent(),
        s.match_result(buy_id, sell_id) is Ok,
    ensures
        ({
            let f = s.match_result(buy_id, sell_id)->Ok_0;
            let s2 = s.matched(f);
            &&& s2.consistent()
            &&& s2.order(buy_id).remaining_qty + f.fill_qty == s.order(buy_id).remaining_qty
            &&& s2.order(sell_id).remaining_qty + f.fill_qty == s.order(sell_id).remaining_qty
        }),
{
    let f = s.match_result(buy_id, sell_id)->Ok_0;
    let s2 = s.matched(f);
    assert(order_wf(s.orders[buy_id - 1]));
    assert(order_wf(s.orders[sell_id - 1]));
    assert forall|i: int| 0 <= i < s2.orders.len() implies order_wf(#[trigger] s2.orders[i]) && s2.orders[i].order_id == i + 1 by {
        assert(order_wf(s.orders[i]));
        assert(s.orders[i].order_id == i + 1);
    }
}


/// Liquidation is allowed exactly when, at reference price `spot`, one
/// side's collateral after the price difference falls below the
/// maintenance share of the notional: the producer's
/// `collateral_a - (spot - strike) * quantity` or the offtaker's
/// `collateral_b + (spot - strike) * quantity` is under
/// `quantity * strike * maintenance_margin_bps / 10000`. A side whose
/// remaining value is still positive but under that share can therefore
/// be liquidated; otherwise the answer is `InsufficientCollateral`.
pub proof fn law_liquidation_below_maintenance(s: MarketState, id: u64, spot: i128)
    requires
        s.liquidation_ready(id) is Ok,
    ensures
        ({
            let p = s.position(id);
            let mm = p.quantity * p.strike_price * p.maintenance_margin_bps / 10000;
            let value_a = p.collateral_a - (spot - p.strike_price) * p.quantity;
            let value_b = p.collateral_b + (spot - p.strike_price) * p.quantity;
            &&& s.liquidation_check(id, spot) is Ok <==> (value_a < mm || value_b < mm)
            &&& !(value_a < mm || value_b < mm) ==> s.liquidation_check(id, spot) == Err::<(), MarketError>(
                MarketError::InsufficientCollateral,
            )
            &&& (0 <= value_a < mm || 0 <= value_b < mm) ==> s.liquidation_check(id, spot) is Ok
        }),
{
    let p = s.position(id);
    assert((spot - p.strike_price) * p.quantity == payoff(p, spot as int));
}

/// Liquidation is refused, with the same answer as its readiness check,
/// whenever that check fails, whatever the price.
pub proof fn law_liquidation_needs_ready(s: MarketState, id: u64, spot: i128)
    requires
        s.liquidation_ready(id) is Err,
    ensures
        s.liquidation_check(id, spot) == Err::<(), MarketError>(s.liquidation_ready(id)->Err_0),
{
}

/// The vintage filters refuse a match only when both orders carry a
/// filter and the two differ: an order without a filter matches an order
/// of any vintage. A match passes its checks exactly when the market is
/// running, both orders exist, are open with quantity left, are a buy and
/// a sell, the bid reaches the ask, and the filters do not conflict.
pub proof fn law_vintage_filters(s: MarketState, buy_id: u64, sell_id: u64)
    ensures
        ({
            let b = s.order(buy_id);
            let a = s.order(sell_id);
            let conflict = b.vintage_filter is Some && a.vintage_filter is Some && b.vintage_filter->0
                != a.vintage_filter->0;
            &&& s.match_check(buy_id, sell_id) is Ok <==> (!s.paused && 1 <= buy_id <= s.orders.len()
                && 1 <= sell_id <= s.orders.len() && b.status == OrderStatus::Open && a.status
                == OrderStatus::Open && b.remaining_qty > 0 && a.remaining_qty > 0 && b.side
                == OrderSide::Buy && a.side == OrderSide::Sell && b.price >= a.price && !conflict)
            &&& (b.vintage_filter is None || a.vintage_filter is None) ==> s.match_check(buy_id, sell_id)
                != Err::<(), MarketError>(MarketError::VintageMismatch)
            &&& s.match_check(buy_id, sell_id) == Err::<(), MarketError>(MarketError::VintageMismatch)
                ==> conflict
        }),
{
}

/// The best order of a side has the best price of the live orders of that
/// side (highest bid, lowest ask), and no live order of the same price
/// was placed at an earlier time.
pub proof fn law_best_order_priority(s: MarketState, side: OrderSide, id: u64)
    requires
        s.best_of(side) is Some,
        s.has_order(id),
        live(s.order(id), side),
    ensures
        ({
            let o = s.best_of(side)->Some_0;
            let x = s.order(id);
            &&& side == OrderSide::Buy ==> x.price <= o.price
            &&& side == OrderSide::Sell ==> o.price <= x.price
            &&& x.price == o.price ==> o.timestamp <= x.timestamp
        }),
{
    let o = choose|o: Order| is_best(s.orders, o, side);
    order_book::law_best_has_priority(s.orders, o, side, id - 1);
}

} // verus!
