//! Orders, positions and errors of the marketplace.
use vstd::prelude::*;
use crate::ids::Address;

verus! {

/// Errors of the marketplace.
#[derive(Clone, Copy, Debug, PartialEq, Eq, Structural)]
pub enum MarketError {
    Unauthorized,
    OrderNotFound,
    OrderFilled,
    PriceMismatch,
    InsufficientBalance,
    FeeCapExceeded,
    VintageMismatch,
    InvalidQuantity,
    InsufficientCollateral,
    CollateralBelowMaintenance,
    PositionNotFound,
    PositionNotActive,
    CfDAlreadySettled,
    ContractPaused,
}

impl MarketError {
    /// The error's number on the ledger.
    pub open spec fn number(self) -> u32 {
        match self {
            MarketError::Unauthorized => 1,
            MarketError::OrderNotFound => 2,
            MarketError::OrderFilled => 3,
            MarketError::PriceMismatch => 4,
            MarketError::InsufficientBalance => 5,
            MarketError::FeeCapExceeded => 6,
            MarketError::VintageMismatch => 7,
            MarketError::InvalidQuantity => 8,
            MarketError::InsufficientCollateral => 9,
            MarketError::CollateralBelowMaintenance => 10,
            MarketError::PositionNotFound => 11,
            MarketError::PositionNotActive => 12,
            MarketError::CfDAlreadySettled => 13,
            MarketError::ContractPaused => 14,
        }
    }

    /// The error's number on the ledger.
    pub fn code(&self) -> (r: u32)
        ensures
            r == self.number(),
    {
        match self {
            MarketError::Unauthorized => 1,
            MarketError::OrderNotFound => 2,
            MarketError::OrderFilled => 3,
            MarketError::PriceMismatch => 4,
            MarketError::InsufficientBalance => 5,
            MarketError::FeeCapExceeded => 6,
            MarketError::VintageMismatch => 7,
            MarketError::InvalidQuantity => 8,
            MarketError::InsufficientCollateral => 9,
            MarketError::CollateralBelowMaintenance => 10,
            MarketError::PositionNotFound => 11,
            MarketError::PositionNotActive => 12,
            MarketError::CfDAlreadySettled => 13,
            MarketError::ContractPaused => 14,
        }
    }
}

/// Side of an order.
#[derive(Clone, Copy, Debug, PartialEq, Eq, Structural)]
pub enum OrderSide {
    Buy,
    Sell,
}

/// Execution restriction of an order.
#[derive(Clone, Copy, Debug, PartialEq, Eq, Structural)]
pub enum OrderRestriction {
    Unrestricted,
    FillOrKill,
    ImmediateOrCancel,
}

/// Status of an order.
#[derive(Clone, Copy, Debug, PartialEq, Eq, Structural)]
pub enum OrderStatus {
    Open,
    Filled,
    Cancelled,
}

/// State of a contract-for-difference position.
#[derive(Clone, Copy, Debug, PartialEq, Eq, Structural)]
pub enum PositionState {
    Pending,
    Active,
    Settled,
    Expired,
    Liquidated,
}

/// A limit order.
#[derive(Clone, Copy, Debug, PartialEq, Eq)]
pub struct Order {
    pub order_id: u64,
    pub trader: Address,
    pub side: OrderSide,
    pub price: i128,
    pub initial_qty: u64,
    pub remaining_qty: u64,
    pub timestamp: u64,
    pub restrictions: OrderRestriction,
    pub vintage_filter: Option<u32>,
    pub status: OrderStatus,
}

/// A contract-for-difference position.
#[derive(Clone, Copy, Debug, PartialEq, Eq)]
pub struct CfDPosition {
    pub position_id: u64,
    pub counterparty_a: Address,
    pub counterparty_b: Option<Address>,
    pub strike_price: i128,
    pub quantity: u64,
    pub settlement_date: u64,
    pub collateral_a: i128,
    pub collateral_b: i128,
    pub maintenance_margin_bps: u32,
    pub state: PositionState,
    pub last_mtm_timestamp: u64,
    pub mtm_value: i128,
}

/// The outcome of matching a buy order against a sell order: the seller
/// delivers `fill_qty` certificates and receives the full `fill_value`; the
/// buyer pays that value and, on top of it, the `fee` to the fee vault.
#[derive(Clone, Copy, Debug, PartialEq, Eq)]
pub struct Fill {
    pub buy_id: u64,
    pub sell_id: u64,
    pub buyer: Address,
    pub seller: Address,
    pub fill_qty: u64,
    pub fill_price: i128,
    pub fill_value: i128,
    pub fee: i128,
}

/// The outcome of closing a position: what each party is paid back.
#[derive(Clone, Copy, Debug, PartialEq, Eq)]
pub struct Settlement {
    pub position_id: u64,
    pub spot_price: i128,
    pub payoff: i128,
    pub party_a: Address,
    pub party_b: Address,
    pub payout_a: i128,
    pub payout_b: i128,
}

/// `a / d` rounded toward zero, as machine division does.
pub open spec fn trunc_div(a: int, d: int) -> int {
    if a >= 0 {
        a / d
    } else {
        -((-a) / d)
    }
}

} // verus!
