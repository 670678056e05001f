//! Data structures of the Polymarket APIs. Prices, sizes and balances are
//! fixed-point integers in micro-units (see the crate documentation).
use vstd::prelude::*;
use vstd::string::StringExecFns;

verus! {

// ─── Market / Token ───────────────────────────────────────────────

/// A market as the CLOB API describes it.
#[derive(Clone)]
pub struct Market {
    pub condition_id: String,
    pub question: Option<String>,
    pub tokens: Option<Vec<Token>>,
    pub active: Option<bool>,
    pub closed: Option<bool>,
    /// Minimum order size, micro-shares.
    pub minimum_order_size: Option<u64>,
    /// Minimum tick size, micro-USDC.
    pub minimum_tick_size: Option<u64>,
}

/// One outcome token of a market.
#[derive(Clone)]
pub struct Token {
    pub token_id: String,
    pub outcome: Option<String>,
    /// Price, micro-USDC per share.
    pub price: Option<u64>,
}

// ─── Order book ───────────────────────────────────────────────────

/// An order book; the first level of each side is the best one.
#[derive(Clone)]
pub struct OrderBookResponse {
    pub market: Option<String>,
    pub asset_id: Option<String>,
    pub bids: Option<Vec<OrderBookLevel>>,
    pub asks: Option<Vec<OrderBookLevel>>,
}

/// One level of an order book, as the decimal strings the API sends.
#[derive(Clone)]
pub struct OrderBookLevel {
    pub price: String,
    pub size: String,
}

// ─── Orders ───────────────────────────────────────────────────────

/// An order to place on the CLOB.
#[derive(Clone)]
pub struct OrderRequest {
    pub token_id: String,
    /// Limit price, micro-USDC per share.
    pub price: u128,
    /// Size, micro-shares.
    pub size: u128,
    pub side: Side,
    pub order_type: OrderType,
    pub funder: String,
}

/// Side of an order or a position.
#[derive(Clone, Copy, Debug, PartialEq, Eq, Structural, Hash)]
pub enum Side {
    Buy,
    Sell,
}

/// The side that closes a position held on `side`.
pub open spec fn opposite_side(side: Side) -> Side {
    match side {
        Side::Buy => Side::Sell,
        Side::Sell => Side::Buy,
    }
}

/// The text form of a side: `BUY` or `SELL`.
pub open spec fn side_label(side: Side) -> Seq<char> {
    match side {
        Side::Buy => "BUY"@,
        Side::Sell => "SELL"@,
    }
}

impl Side {
    /// The text form of the side, as the API writes it.
    pub fn label(&self) -> (s: String)
        ensures
            s@ == side_label(*self),
    {
        match self {
            Side::Buy => String::from_str("BUY"),
            Side::Sell => String::from_str("SELL"),
        }
    }

    /// The side that closes a position held on this side: sell what we
    /// bought, buy back what we sold.
    pub fn opposite(&self) -> (s: Side)
        ensures
            s == opposite_side(*self),
    {
        match self {
            Side::Buy => Side::Sell,
            Side::Sell => Side::Buy,
        }
    }
}

/// Law: closing twice restores the side; a side and its closing side differ.
pub proof fn lemma_opposite_side_involution(side: Side)
    ensures
        opposite_side(opposite_side(side)) == side,
        opposite_side(side) != side,
{
}

/// Time in force of an order.
#[derive(Clone, Copy, Debug, PartialEq, Eq, Structural)]
pub enum OrderType {
    /// Good til cancelled.
    Gtc,
    /// Fill or kill.
    Fok,
    /// Immediate or cancel.
    Ioc,
}

/// The CLOB's answer to an order.
#[derive(Clone)]
pub struct OrderResponse {
    pub success: Option<bool>,
    pub order_id: Option<String>,
    pub status: Option<String>,
    pub error_msg: Option<String>,
}

// ─── Positions (used for monitoring target) ───────────────────────

/// A position of a wallet, as the data API reports it.
#[derive(Clone)]
pub struct Position {
    /// Token id.
    pub asset: Option<String>,
    pub condition_id: Option<String>,
    /// Size, micro-shares.
    pub size: Option<u64>,
    /// Average entry price, micro-USDC per share.
    pub avg_price: Option<u64>,
    pub side: Option<String>,
    pub market: Option<String>,
    pub outcome: Option<String>,
    /// Current price, micro-USDC per share.
    pub cur_price: Option<u64>,
    /// Cash profit and loss, micro-USDC.
    pub cash_pnl: Option<i64>,
    /// Profit and loss in percent, micro-units.
    pub percent_pnl: Option<i64>,
    pub proxy_wallet: Option<String>,
    /// Current value, micro-USDC.
    pub current_value: Option<u64>,
    /// Whether the market resolved and the position can only be redeemed.
    pub redeemable: Option<bool>,
    pub title: Option<String>,
}

// ─── Trade activity from the data API ─────────────────────────────

/// One activity (trade) of a wallet.
#[derive(Clone)]
pub struct GammaActivity {
    pub id: Option<String>,
    pub condition_id: Option<String>,
    /// Token id.
    pub asset: Option<String>,
    /// `BUY` or `SELL`.
    pub side: Option<String>,
    /// Size, micro-shares.
    pub size: Option<u64>,
    /// Price, micro-USDC per share.
    pub price: Option<u64>,
    /// `TRADE` for trades.
    pub activity_type: Option<String>,
    pub timestamp: Option<String>,
    pub transaction_hash: Option<String>,
    pub outcome: Option<String>,
    pub market: Option<String>,
    pub proxy_wallet: Option<String>,
}

// ─── Snapshot of a wallet's positions for diffing ─────────────────

/// One tracked position of the target wallet.
#[derive(Clone)]
pub struct PositionSnapshot {
    pub token_id: String,
    /// Size, micro-shares.
    pub size: u64,
    pub side: Side,
    /// Price, micro-USDC per share.
    pub price: u64,
    pub condition_id: String,
}

impl PartialEq for PositionSnapshot {
    fn eq(&self, other: &Self) -> (r: bool) {
        self.token_id == other.token_id && self.size == other.size && self.side == other.side
            && self.price == other.price && self.condition_id == other.condition_id
    }
}

impl vstd::std_specs::cmp::PartialEqSpecImpl for PositionSnapshot {
    open spec fn obeys_eq_spec() -> bool {
        true
    }

    open spec fn eq_spec(&self, other: &Self) -> bool {
        self@ == other@
    }
}

/// A snapshot entry with its strings taken by their views.
pub struct SnapshotView {
    pub token_id: Seq<char>,
    pub size: u64,
    pub side: Side,
    pub price: u64,
    pub condition_id: Seq<char>,
}

impl View for PositionSnapshot {
    type V = SnapshotView;

    open spec fn view(&self) -> SnapshotView {
        SnapshotView {
            token_id: self.token_id@,
            size: self.size,
            side: self.side,
            price: self.price,
            condition_id: self.condition_id@,
        }
    }
}

// ─── Balance ──────────────────────────────────────────────────────

/// Balance and allowance, as decimal strings.
#[derive(Clone)]
pub struct BalanceAllowance {
    pub balance: Option<String>,
    pub allowance: Option<String>,
}

// ─── Price / Book ─────────────────────────────────────────────────

/// Best bid and ask of a token, micro-USDC per share.
#[derive(Clone)]
pub struct BookPrice {
    pub bid: Option<u64>,
    pub ask: Option<u64>,
    pub mid: Option<u64>,
    pub spread: Option<u64>,
}

// ─── Open orders ──────────────────────────────────────────────────

/// One of our open orders, as the CLOB reports it.
#[derive(Clone)]
pub struct OpenOrder {
    pub id: Option<String>,
    pub asset_id: Option<String>,
    pub side: Option<String>,
    pub price: Option<String>,
    pub original_size: Option<String>,
    pub size_matched: Option<String>,
    pub status: Option<String>,
}

} // verus!
