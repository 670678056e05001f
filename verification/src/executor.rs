//! Execution engine: turns the target's position deltas into our orders.
//!
//! The engine decides; the application performs. For each delta it asks for
//! a plan (`Executor::plan`), fetches the order book, asks for the execution
//! price (`Executor::execution_price`), asks for the order (`Executor::order_for`,
//! none in dry-run mode), places it, and reports the answer back
//! (`Executor::record_fill`).
use vstd::prelude::*;

use crate::client::market_order_request;
use crate::config::Config;
use crate::monitor::{last_report, lemma_snapshot_holds_last_report, snapshot_entry, snapshot_of_positions, token_index, DeltaView, PositionDelta, WalletMonitor};
use crate::sizer::Sizer;
use crate::text::{parse_decimal_micros, parsed_micros};
use crate::types::{opposite_side, OrderBookLevel, OrderBookResponse, OrderRequest, OrderResponse, OrderType, Position, Side};
use crate::units::{BPS_ONE, DEFAULT_TICK, MICROS};
use vstd::arithmetic::div_mod::lemma_fundamental_div_mod;

verus! {

/// A tracked position below this size (0.01 share) after a partial close is dropped.
pub const DUST_SIZE: u128 = 10_000;

/// One cent, in micro-USDC: the price increment of the exchange.
pub const CENT: u64 = 10_000;

/// Highest price we buy at: 0.99, in cents.
pub const MAX_BUY_CENTS: u64 = 99;

/// Lowest price we sell at: 0.01, in cents.
pub const MIN_SELL_CENTS: u64 = 1;

/// One of our tracked positions.
#[derive(Clone)]
pub struct HeldPosition {
    pub token_id: String,
    /// Size, micro-shares.
    pub size: u128,
    pub side: Side,
}

/// A tracked position with its token id taken by its view.
pub struct HeldView {
    pub token_id: Seq<char>,
    pub size: u128,
    pub side: Side,
}

impl View for HeldPosition {
    type V = HeldView;

    open spec fn view(&self) -> HeldView {
        HeldView { token_id: self.token_id@, size: self.size, side: self.side }
    }
}

/// Our positions, by token: size and side.
pub type Holdings = Map<Seq<char>, (u128, Side)>;

/// The views of a list of tracked positions.
pub open spec fn held_views(s: Seq<HeldPosition>) -> Seq<HeldView> {
    s.map_values(|h: HeldPosition| h@)
}

/// No token is tracked twice.
pub open spec fn held_unique(s: Seq<HeldView>) -> bool {
    forall|i: int, j: int| 0 <= i < j < s.len() ==> #[trigger] s[i].token_id != #[trigger] s[j].token_id
}

/// Some entry tracks token `t`.
pub open spec fn holds_token(s: Seq<HeldView>, t: Seq<char>) -> bool {
    exists|i: int| 0 <= i < s.len() && #[trigger] s[i].token_id == t
}

/// An index of an entry tracking token `t`.
pub open spec fn held_index(s: Seq<HeldView>, t: Seq<char>) -> int {
    choose|i: int| 0 <= i < s.len() && #[trigger] s[i].token_id == t
}

/// The holdings that a list of tracked positions stands for.
pub open spec fn holdings_of(s: Seq<HeldView>) -> Holdings {
    Map::new(
        |t: Seq<char>| holds_token(s, t),
        |t: Seq<char>| (s[held_index(s, t)].size, s[held_index(s, t)].side),
    )
}

/// In a list without repeated tokens, an entry is the one its token finds.
pub proof fn lemma_held_index(s: Seq<HeldView>, i: int)
    requires
        held_unique(s),
        0 <= i < s.len(),
    ensures
        held_index(s, s[i].token_id) == i,
        holds_token(s, s[i].token_id),
{
    assert(holds_token(s, s[i].token_id));
    let k = held_index(s, s[i].token_id);
    if k < i {
        assert(s[k].token_id != s[i].token_id);
    } else if k > i {
        assert(s[i].token_id != s[k].token_id);
    }
}

/// Replacing the entry at `i` by one for the same token updates the holdings at that token.
pub proof fn lemma_holdings_update(s: Seq<HeldView>, i: int, h: HeldView)
    requires
        held_unique(s),
        0 <= i < s.len(),
        h.token_id == s[i].token_id,
    ensures
        held_unique(s.update(i, h)),
        holdings_of(s.update(i, h)) == holdings_of(s).insert(h.token_id, (h.size, h.side)),
{
    let u = s.update(i, h);
    assert(held_unique(u)) by {
        assert forall|a: int, b: int| 0 <= a < b < u.len() implies #[trigger] u[a].token_id != #[trigger] u[b].token_id by {
            assert(s[a].token_id != s[b].token_id);
        }
    }
    lemma_held_index(u, i);
    assert forall|t: Seq<char>| holds_token(u, t) == holds_token(s, t) by {
        if holds_token(s, t) {
            let k = choose|k: int| 0 <= k < s.len() && #[trigger] s[k].token_id == t;
            assert(u[k].token_id == t);
        }
        if holds_token(u, t) {
            let k = choose|k: int| 0 <= k < u.len() && #[trigger] u[k].token_id == t;
            assert(s[k].token_id == t);
        }
    }
    assert forall|t: Seq<char>| #[trigger] holds_token(u, t) && t != h.token_id implies
        held_index(u, t) == held_index(s, t) by {
        let k = choose|k: int| 0 <= k < s.len() && #[trigger] s[k].token_id == t;
        assert(k != i);
        lemma_held_index(s, k);
        assert(u[k].token_id == t);
        lemma_held_index(u, k);
    }
    assert(holdings_of(u) =~= holdings_of(s).insert(h.token_id, (h.size, h.side)));
}

/// Appending an entry for a new token adds it to the holdings.
pub proof fn lemma_holdings_push(s: Seq<HeldView>, h: HeldView)
    requires
        held_unique(s),
        !holds_token(s, h.token_id),
    ensures
        held_unique(s.push(h)),
        holdings_of(s.push(h)) == holdings_of(s).insert(h.token_id, (h.size, h.side)),
{
    let u = s.push(h);
    assert(held_unique(u)) by {
        assert forall|a: int, b: int| 0 <= a < b < u.len() implies #[trigger] u[a].token_id != #[trigger] u[b].token_id by {
            if b == s.len() {
                assert(s[a].token_id != h.token_id);
            }
        }
    }
    lemma_held_index(u, s.len() as int);
    assert forall|t: Seq<char>| t != h.token_id implies holds_token(u, t) == holds_token(s, t) by {
        if holds_token(s, t) {
            let k = choose|k: int| 0 <= k < s.len() && #[trigger] s[k].token_id == t;
            assert(u[k].token_id == t);
        }
        if holds_token(u, t) {
            let k = choose|k: int| 0 <= k < u.len() && #[trigger] u[k].token_id == t;
            assert(s[k].token_id == t);
        }
    }
    assert forall|t: Seq<char>| #[trigger] holds_token(u, t) && t != h.token_id implies
        held_index(u, t) == held_index(s, t) by {
        let k = choose|k: int| 0 <= k < s.len() && #[trigger] s[k].token_id == t;
        lemma_held_index(s, k);
        assert(u[k].token_id == t);
        lemma_held_index(u, k);
    }
    assert(holdings_of(u) =~= holdings_of(s).insert(h.token_id, (h.size, h.side)));
}

/// Removing the entry at `i` removes its token from the holdings.
pub proof fn lemma_holdings_remove(s: Seq<HeldView>, i: int)
    requires
        held_unique(s),
        0 <= i < s.len(),
    ensures
        held_unique(s.remove(i)),
        holdings_of(s.remove(i)) == holdings_of(s).remove(s[i].token_id),
{
    let u = s.remove(i);
    let t0 = s[i].token_id;
    assert forall|k: int| 0 <= k < u.len() implies #[trigger] u[k] == (if k < i { s[k] } else { s[k + 1] }) by {}
    assert(held_unique(u)) by {
        assert forall|a: int, b: int| 0 <= a < b < u.len() implies #[trigger] u[a].token_id != #[trigger] u[b].token_id by {
            let a2 = if a < i { a } else { a + 1 };
            let b2 = if b < i { b } else { b + 1 };
            assert(u[a] == s[a2] && u[b] == s[b2]);
            assert(s[a2].token_id != s[b2].token_id);
        }
    }
    assert forall|t: Seq<char>| holds_token(u, t) == (holds_token(s, t) && t != t0) by {
        if holds_token(s, t) && t != t0 {
            let k = choose|k: int| 0 <= k < s.len() && #[trigger] s[k].token_id == t;
            assert(k != i);
            let k2 = if k < i { k } else { k - 1 };
            assert(u[k2].token_id == t);
        }
        if holds_token(u, t) {
            let k = choose|k: int| 0 <= k < u.len() && #[trigger] u[k].token_id == t;
            let k2 = if k < i { k } else { k + 1 };
            assert(s[k2].token_id == t);
            assert(k2 != i);
            assert(s[i].token_id != s[k2].token_id);
        }
    }
    assert forall|t: Seq<char>| #[trigger] holds_token(u, t) implies
        u[held_index(u, t)] == s[held_index(s, t)] by {
        let k = choose|k: int| 0 <= k < u.len() && #[trigger] u[k].token_id == t;
        lemma_held_index(u, k);
        let k2 = if k < i { k } else { k + 1 };
        assert(s[k2].token_id == t);
        lemma_held_index(s, k2);
    }
    assert(holdings_of(u) =~= holdings_of(s).remove(t0));
}

/// What kind of order a plan stands for.
#[derive(Clone, Copy, Debug, PartialEq, Eq, Structural)]
pub enum TradeKind {
    /// Open or increase a position.
    Open,
    /// Partially close a position.
    Close,
    /// Fully close a position (the target exited entirely).
    FullClose,
}

/// An order we decided to place for one delta.
#[derive(Clone)]
pub struct TradePlan {
    pub kind: TradeKind,
    pub token_id: String,
    pub side: Side,
    /// Size, micro-shares.
    pub size: u128,
    /// Price to fall back on without an order book, micro-USDC per share.
    /// `None` for a full close: the application then uses the midpoint price.
    pub reference_price: Option<u64>,
}

/// A plan with its token id taken by its view.
pub struct PlanView {
    pub kind: TradeKind,
    pub token_id: Seq<char>,
    pub side: Side,
    pub size: u128,
    pub reference_price: Option<u64>,
}

impl View for TradePlan {
    type V = PlanView;

    open spec fn view(&self) -> PlanView {
        PlanView {
            kind: self.kind,
            token_id: self.token_id@,
            side: self.side,
            size: self.size,
            reference_price: self.reference_price,
        }
    }
}

/// The plan for opening or increasing a position by `target_size`.
pub open spec fn open_plan(
    sizer: Sizer,
    token_id: Seq<char>,
    side: Side,
    target_size: u64,
    price: u64,
    our_balance: u64,
    target_value: u64,
) -> Option<PlanView> {
    match sizer.size_for(target_size as int, target_value as int, our_balance as int, price as int, DEFAULT_TICK) {
        Some(s) => Some(PlanView {
            kind: TradeKind::Open,
            token_id,
            side,
            size: s as u128,
            reference_price: Some(price),
        }),
        None => None,
    }
}

/// `a + b`, or `u64::MAX` when that does not fit.
pub open spec fn saturating_sum(a: u64, b: u64) -> u64 {
    if a + b <= u64::MAX { (a + b) as u64 } else { u64::MAX }
}

/// `a + b`, or `u128::MAX` when that does not fit.
pub open spec fn saturating_sum128(a: u128, b: u128) -> u128 {
    if a + b <= u128::MAX { (a + b) as u128 } else { u128::MAX }
}

/// The plan for a delta, given our holdings.
pub open spec fn plan_for(
    sizer: Sizer,
    holdings: Holdings,
    delta: DeltaView,
    our_balance: u64,
    target_value: u64,
) -> Option<PlanView> {
    match delta {
        DeltaView::Opened { token_id, size, side, price, .. } =>
            open_plan(sizer, token_id, side, size, price, our_balance, target_value),
        DeltaView::Increased { token_id, added_size, side, price, .. } =>
            open_plan(sizer, token_id, side, added_size, price, our_balance, target_value),
        DeltaView::Decreased { token_id, removed_size, new_total, price, .. } => {
            if holdings.contains_key(token_id) {
                let held = holdings[token_id];
                match Sizer::close_size_for(removed_size as int, saturating_sum(new_total, removed_size) as int,
                    held.0 as int, DEFAULT_TICK) {
                    Some(c) => Some(PlanView {
                        kind: TradeKind::Close,
                        token_id,
                        side: opposite_side(held.1),
                        size: c as u128,
                        reference_price: Some(price),
                    }),
                    None => None,
                }
            } else {
                None
            }
        },
        DeltaView::Closed { token_id, .. } => {
            if holdings.contains_key(token_id) {
                let held = holdings[token_id];
                Some(PlanView {
                    kind: TradeKind::FullClose,
                    token_id,
                    side: opposite_side(held.1),
                    size: held.0,
                    reference_price: None,
                })
            } else {
                None
            }
        },
    }
}

/// Our holdings after the answer to a planned order: unchanged unless it was
/// filled; an open adds its size (to the held side, or on the order's side for
/// a new token); a partial close subtracts its size and drops what falls
/// below 0.01 share; a full close drops the token.
pub open spec fn after_fill(holdings: Holdings, plan: PlanView, filled: bool) -> Holdings {
    let t = plan.token_id;
    if !filled {
        holdings
    } else {
        match plan.kind {
            TradeKind::Open => if holdings.contains_key(t) {
                holdings.insert(t, (saturating_sum128(holdings[t].0, plan.size), holdings[t].1))
            } else {
                holdings.insert(t, (plan.size, plan.side))
            },
            TradeKind::Close => if holdings.contains_key(t) {
                let rest = holdings[t].0 - plan.size;
                if rest < DUST_SIZE {
                    holdings.remove(t)
                } else {
                    holdings.insert(t, (rest as u128, holdings[t].1))
                }
            } else {
                holdings
            },
            TradeKind::FullClose => holdings.remove(t),
        }
    }
}

/// Our holdings as reported positions give them: one entry per token with a
/// non-zero size, the last report of a token winning.
pub open spec fn holdings_from_positions(ps: Seq<Position>) -> Holdings
    decreases ps.len(),
{
    if ps.len() == 0 {
        Map::empty()
    } else {
        let m = holdings_from_positions(ps.drop_last());
        match snapshot_entry(ps.last()) {
            Some(e) => m.insert(e.token_id, (e.size as u128, e.side)),
            None => m,
        }
    }
}

/// Price of the best level on one side of a book, if it reads as a number.
pub open spec fn best_level_price(levels: Option<Vec<OrderBookLevel>>) -> Option<u64> {
    match levels {
        Some(v) => if v.len() > 0 { parsed_micros(v[0].price@) } else { None },
        None => None,
    }
}

/// The price our order starts from: the best ask to buy, the best bid to
/// sell, or the fallback price when the book or that level is missing.
pub open spec fn reference_price_for(book: Option<OrderBookResponse>, side: Side, fallback: u64) -> u64 {
    match book {
        Some(ob) => {
            let best = match side {
                Side::Buy => best_level_price(ob.asks),
                Side::Sell => best_level_price(ob.bids),
            };
            match best { Some(p) => p, None => fallback }
        },
        None => fallback,
    }
}

/// `n / d` rounded to the nearest integer, halves up.
pub open spec fn round_div(n: int, d: int) -> int {
    (2 * n + d) / (2 * d)
}

/// The worst price we accept, in cents: the reference price moved against us
/// by the slippage, capped at 0.99 to buy and floored at 0.01 to sell, then
/// rounded to the cent.
pub open spec fn worst_price_cents(reference: u64, side: Side, slippage_bps: u64) -> int {
    let d = BPS_ONE * CENT;
    match side {
        Side::Buy => {
            let n = reference * (BPS_ONE + slippage_bps);
            if n >= MAX_BUY_CENTS * d { MAX_BUY_CENTS as int } else { round_div(n, d as int) }
        },
        Side::Sell => {
            let n = reference * (BPS_ONE - slippage_bps);
            if n < MIN_SELL_CENTS * d { MIN_SELL_CENTS as int } else { round_div(n, d as int) }
        },
    }
}

/// The execution price, micro-USDC per share.
pub open spec fn execution_price_for(book: Option<OrderBookResponse>, side: Side, fallback: u64, slippage_bps: u64) -> int {
    worst_price_cents(reference_price_for(book, side, fallback), side, slippage_bps) * CENT
}

/// A rounded quotient never exceeds twice the dividend plus the divisor.
proof fn lemma_round_div_bound(n: int, d: int)
    requires
        n >= 0,
        d > 0,
    ensures
        0 <= round_div(n, d) <= 2 * n + d,
{
    lemma_fundamental_div_mod(2 * n + d, 2 * d);
    vstd::arithmetic::div_mod::lemma_div_pos_is_pos(2 * n + d, 2 * d);
    let q = (2 * n + d) / (2 * d);
    assert(q <= 2 * n + d) by (nonlinear_arith)
        requires 2 * n + d == 2 * d * q + (2 * n + d) % (2 * d), (2 * n + d) % (2 * d) >= 0, d > 0, q >= 0;
}

/// Price of the best level on one side of a book.
fn first_level_price(levels: &Option<Vec<OrderBookLevel>>) -> (r: Option<u64>)
    ensures
        r == best_level_price(*levels),
{
    match levels {
        Some(v) => {
            if v.len() > 0 {
                parse_decimal_micros(v[0].price.as_str())
            } else {
                None
            }
        },
        None => None,
    }
}

/// Our balance to size with when it could not be fetched: zero.
pub const UNKNOWN_BALANCE: u64 = 0;

/// The target's value to size with when it could not be estimated: 1 USDC.
pub const UNKNOWN_TARGET_VALUE: u64 = 1_000_000;

/// The reference price of a full close when the midpoint could not be fetched: 0.5 USDC.
pub const UNKNOWN_MIDPOINT: u64 = 500_000;

/// The inputs of sizing for a batch of deltas: our balance and the target's
/// value as fetched, or zero and 1 USDC where a fetch failed.
pub fn sizing_inputs(our_balance: Option<u64>, target_value: Option<u64>) -> (r: (u64, u64))
    ensures
        r.0 == match our_balance { Some(b) => b, None => UNKNOWN_BALANCE },
        r.1 == match target_value { Some(v) => v, None => UNKNOWN_TARGET_VALUE },
{
    let b = match our_balance {
        Some(b) => b,
        None => UNKNOWN_BALANCE,
    };
    let v = match target_value {
        Some(v) => v,
        None => UNKNOWN_TARGET_VALUE,
    };
    (b, v)
}

/// The price a plan's order starts from without a book: the plan's own
/// reference price, or for a full close the midpoint as fetched, or 0.5
/// where that fetch failed.
pub fn fallback_price_for(plan: &TradePlan, midpoint: Option<u64>) -> (p: u64)
    ensures
        p == match plan.reference_price {
            Some(r) => r,
            None => match midpoint { Some(m) => m, None => UNKNOWN_MIDPOINT },
        },
{
    match plan.reference_price {
        Some(r) => r,
        None => match midpoint {
            Some(m) => m,
            None => UNKNOWN_MIDPOINT,
        },
    }
}

/// A batch of deltas being executed: each is attempted once, in the order
/// given, whatever became of the ones before it; failures are counted.
pub struct DeltaBatch {
    deltas: Vec<PositionDelta>,
    attempted: usize,
    failed: usize,
}

impl DeltaBatch {
    /// The deltas of the batch, in order.
    pub closed spec fn items(&self) -> Seq<PositionDelta> {
        self.deltas@
    }

    /// How many deltas have been attempted.
    pub closed spec fn attempted_count(&self) -> nat {
        self.attempted as nat
    }

    /// How many of the attempted deltas failed.
    pub closed spec fn failed_count(&self) -> nat {
        self.failed as nat
    }

    /// Counts stay within the batch.
    pub closed spec fn wf(&self) -> bool {
        self.failed <= self.attempted <= self.deltas@.len()
    }

    /// A batch of `deltas`, none attempted yet.
    pub fn new(deltas: Vec<PositionDelta>) -> (b: DeltaBatch)
        ensures
            b.wf(),
            b.items() == deltas@,
            b.attempted_count() == 0,
            b.failed_count() == 0,
    {
        DeltaBatch { deltas, attempted: 0, failed: 0 }
    }

    /// Whether the batch holds no delta at all (then nothing is to be fetched
    /// or executed).
    pub fn is_empty(&self) -> (r: bool)
        ensures
            r == (self.items().len() == 0),
    {
        self.deltas.len() == 0
    }

    /// The delta to attempt next: the first one not attempted, none once all were.
    pub fn next_delta(&self) -> (r: Option<&PositionDelta>)
        requires
            self.wf(),
        ensures
            r is Some == (self.attempted_count() < self.items().len()),
            r matches Some(d) ==> *d == self.items()[self.attempted_count() as int],
    {
        if self.attempted < self.deltas.len() {
            Some(&self.deltas[self.attempted])
        } else {
            None
        }
    }

    /// Record the outcome of the delta just attempted. Whether it succeeded
    /// or not, the batch moves on to the next one.
    pub fn record_outcome(&mut self, succeeded: bool)
        requires
            old(self).wf(),
            old(self).attempted_count() < old(self).items().len(),
        ensures
            final(self).wf(),
            final(self).items() == old(self).items(),
            final(self).attempted_count() == old(self).attempted_count() + 1,
            final(self).failed_count() == old(self).failed_count() + (if succeeded { 0nat } else { 1nat }),
    {
        if self.attempted < self.deltas.len() {
            self.attempted = self.attempted + 1;
            if !succeeded {
                self.failed = self.failed + 1;
            }
        }
    }

    /// How many attempted deltas failed.
    pub fn failures(&self) -> (n: usize)
        ensures
            n == self.failed_count(),
    {
        self.failed
    }
}

/// Execution engine state: sizing rules, settings, and our tracked positions.
pub struct Executor {
    sizer: Sizer,
    config: Config,
    /// Our positions, one entry per token: a map from token id to size and
    /// side, held as a `Vec` whose tokens are unique (see `held_unique`),
    /// since Verus proves nothing of a std `HashMap` keyed by `String`; its
    /// view `holdings` is the map itself.
    our_positions: Vec<HeldPosition>,
}

impl Executor {
    /// Our tracked positions.
    pub closed spec fn holdings(&self) -> Holdings {
        holdings_of(held_views(self.our_positions@))
    }

    /// The sizing rules in use.
    pub closed spec fn sizer(&self) -> Sizer {
        self.sizer
    }

    /// The settings in use.
    pub closed spec fn config(&self) -> Config {
        self.config
    }

    #[verifier::type_invariant]
    closed spec fn inv(&self) -> bool {
        held_unique(held_views(self.our_positions@))
    }

    /// An engine with the sizing rules of `config` and no tracked positions.
    pub fn new(config: Config) -> (e: Executor)
        ensures
            e.holdings() == Map::<Seq<char>, (u128, Side)>::empty(),
            e.config() == config,
            e.sizer().min_bet() == if config.min_bet_size >= MICROS { config.min_bet_size as int } else { MICROS as int },
            e.sizer().max_trade_bps() == crate::sizer::MAX_SINGLE_TRADE_BPS,
    {
        let sizer = Sizer::new(&config);
        let e = Executor { sizer, config, our_positions: Vec::new() };
        assert(holdings_of(held_views(e.our_positions@)) =~= Map::<Seq<char>, (u128, Side)>::empty());
        e
    }

    /// Index of our entry for `token`.
    fn find_held(&self, token: &String) -> (r: Option<usize>)
        ensures
            match r {
                Some(i) => i < self.our_positions@.len() && self.our_positions@[i as int].token_id@ == token@,
                None => !holds_token(held_views(self.our_positions@), token@),
            },
    {
        let ghost views = held_views(self.our_positions@);
        let mut i: usize = 0;
        while i < self.our_positions.len()
            invariant
                views == held_views(self.our_positions@),
                i <= self.our_positions@.len(),
                forall|j: int| 0 <= j < i ==> #[trigger] views[j].token_id != token@,
            decreases self.our_positions@.len() - i,
        {
            if self.our_positions[i].token_id == *token {
                return Some(i);
            }
            i = i + 1;
        }
        None
    }

    /// Our tracked size and side for `token`.
    pub fn held(&self, token: &String) -> (r: Option<(u128, Side)>)
        ensures
            match r {
                Some(h) => self.holdings().contains_key(token@) && self.holdings()[token@] == h,
                None => !self.holdings().contains_key(token@),
            },
    {
        proof {
            use_type_invariant(self);
        }
        match self.find_held(token) {
            Some(i) => {
                proof {
                    lemma_held_index(held_views(self.our_positions@), i as int);
                }
                Some((self.our_positions[i].size, self.our_positions[i].side))
            },
            None => None,
        }
    }

    /// Number of tracked positions.
    pub fn held_count(&self) -> (n: usize)
        ensures
            n == self.holdings().len(),
    {
        proof {
            use_type_invariant(self);
            lemma_holdings_len(held_views(self.our_positions@));
        }
        self.our_positions.len()
    }

    /// Refresh our tracked positions from our reported positions: one entry
    /// per token with a non-zero size, `SELL` (any case) meaning a sell.
    pub fn sync_positions(&mut self, positions: &[Position])
        ensures
            final(self).holdings() == holdings_from_positions(positions@),
            final(self).sizer() == old(self).sizer(),
            final(self).config() == old(self).config(),
    {
        let mut cleared: Vec<HeldPosition> = Vec::new();
        std::mem::swap(&mut cleared, &mut self.our_positions);
        assert(holdings_of(held_views(self.our_positions@)) =~= Map::<Seq<char>, (u128, Side)>::empty());
        let n = positions.len();
        assert(positions@.take(0) =~= Seq::<Position>::empty());
        for i in 0..n
            invariant
                n == positions@.len(),
                self.holdings() == holdings_from_positions(positions@.take(i as int)),
                self.sizer() == old(self).sizer(),
                self.config() == old(self).config(),
        {
            assert(positions@.take(i + 1).drop_last() =~= positions@.take(i as int));
            assert(positions@.take(i + 1).last() == positions@[i as int]);
            match WalletMonitor::snapshot_entry(&positions[i]) {
                Some(e) => {
                    self.put(e.token_id, e.size as u128, e.side);
                },
                None => {},
            }
        }
        assert(positions@.take(n as int) =~= positions@);
    }

    /// Decide what to do for one delta of the target, given our balance and
    /// the target's estimated value (both micro-USDC):
    /// - opened or increased: buy or sell on the target's side a size scaled
    ///   by `compute_size` (tick 0.01 share), or nothing when that gives none;
    /// - decreased: close the same fraction of our position (`compute_close_size`)
    ///   on the side opposite to ours, or nothing when we hold none or that is
    ///   too small;
    /// - closed: close all of our position, or nothing when we hold none.
    pub fn plan(&self, delta: &PositionDelta, our_balance: u64, target_value: u64) -> (r: Option<TradePlan>)
        ensures
            match r {
                Some(p) => plan_for(self.sizer(), self.holdings(), delta@, our_balance, target_value) == Some(p@),
                None => plan_for(self.sizer(), self.holdings(), delta@, our_balance, target_value) is None,
            },
    {
        match delta {
            PositionDelta::Opened { token_id, size, side, price, .. } => {
                self.open_plan(token_id, *side, *size, *price, our_balance, target_value)
            },
            PositionDelta::Increased { token_id, added_size, side, price, .. } => {
                self.open_plan(token_id, *side, *added_size, *price, our_balance, target_value)
            },
            PositionDelta::Decreased { token_id, removed_size, new_total, price, .. } => {
                let (our_size, our_side) = match self.held(token_id) {
                    Some(h) => h,
                    None => return None,
                };
                let total_before = new_total.saturating_add(*removed_size);
                match self.sizer.compute_close_size(*removed_size, total_before, our_size, DEFAULT_TICK) {
                    Some(c) => Some(TradePlan {
                        kind: TradeKind::Close,
                        token_id: token_id.clone(),
                        side: our_side.opposite(),
                        size: c,
                        reference_price: Some(*price),
                    }),
                    None => None,
                }
            },
            PositionDelta::Closed { token_id, .. } => {
                let (our_size, our_side) = match self.held(token_id) {
                    Some(h) => h,
                    None => return None,
                };
                Some(TradePlan {
                    kind: TradeKind::FullClose,
                    token_id: token_id.clone(),
                    side: our_side.opposite(),
                    size: our_size,
                    reference_price: None,
                })
            },
        }
    }

    fn open_plan(
        &self,
        token_id: &String,
        side: Side,
        target_size: u64,
        price: u64,
        our_balance: u64,
        target_value: u64,
    ) -> (r: Option<TradePlan>)
        ensures
            match r {
                Some(p) => open_plan(self.sizer(), token_id@, side, target_size, price, our_balance, target_value) == Some(p@),
                None => open_plan(self.sizer(), token_id@, side, target_size, price, our_balance, target_value) is None,
            },
    {
        match self.sizer.compute_size(target_size, target_value, our_balance, price, DEFAULT_TICK) {
            Some(s) => Some(TradePlan {
                kind: TradeKind::Open,
                token_id: token_id.clone(),
                side,
                size: s,
                reference_price: Some(price),
            }),
            None => None,
        }
    }

    /// The worst price we accept for an order on `side`, with slippage
    /// protection: to buy, the best ask plus the configured slippage, at most
    /// 0.99; to sell, the best bid minus the slippage, at least 0.01; the
    /// fallback price stands in for a missing book or level. Rounded to the
    /// cent, in micro-USDC per share.
    #[verifier::spinoff_prover]
    pub fn execution_price(&self, book: Option<&OrderBookResponse>, side: Side, fallback_price: u64) -> (p: u128)
        ensures
            p == execution_price_for(
                match book { Some(b) => Some(*b), None => None },
                side,
                fallback_price,
                self.config().max_slippage_bps,
            ),
    {
        let reference: u64 = match book {
            Some(ob) => {
                let best = match side {
                    Side::Buy => first_level_price(&ob.asks),
                    Side::Sell => first_level_price(&ob.bids),
                };
                match best {
                    Some(p) => p,
                    None => fallback_price,
                }
            },
            None => fallback_price,
        };
        let bps = self.config.max_slippage_bps;
        let d: u128 = 100_000_000;
        assert(d == BPS_ONE * CENT);
        let cents: u128 = match side {
            Side::Buy => {
                let factor: u128 = BPS_ONE as u128 + bps as u128;
                match (reference as u128).checked_mul(factor) {
                    Some(n) => {
                        if n >= 99 * d {
                            MAX_BUY_CENTS as u128
                        } else {
                            proof { lemma_round_div_bound(n as int, d as int); }
                            let c = (2 * n + d) / (2 * d);
                            assert(c <= 200 * d);
                            c
                        }
                    },
                    None => MAX_BUY_CENTS as u128,
                }
            },
            Side::Sell => {
                if bps >= BPS_ONE {
                    assert(reference * (BPS_ONE - bps) <= 0) by (nonlinear_arith)
                        requires reference >= 0, bps >= BPS_ONE;
                    MIN_SELL_CENTS as u128
                } else {
                    assert(reference * (BPS_ONE - bps) <= u64::MAX * 10_000) by (nonlinear_arith)
                        requires 0 <= reference <= u64::MAX, 0 < BPS_ONE - bps <= 10_000;
                    let n: u128 = reference as u128 * (BPS_ONE - bps) as u128;
                    if n < d {
                        MIN_SELL_CENTS as u128
                    } else {
                        proof { lemma_round_div_bound(n as int, d as int); }
                        let c = (2 * n + d) / (2 * d);
                        assert(c <= 2 * u64::MAX * 10_000 + d);
                        c
                    }
                }
            },
        };
        assert(cents <= 2 * u64::MAX * 10_000 + 100_000_000);
        cents * 10_000
    }

    /// The order to place for `plan` at `exec_price`: a fill-or-kill order
    /// from our funder address; none in dry-run mode.
    pub fn order_for(&self, plan: &TradePlan, exec_price: u128) -> (r: Option<OrderRequest>)
        ensures
            r is None <==> self.config().dry_run,
            match r {
                Some(o) => {
                    &&& o.token_id@ == plan.token_id@
                    &&& o.price == exec_price
                    &&& o.size == plan.size
                    &&& o.side == plan.side
                    &&& o.order_type == OrderType::Fok
                    &&& o.funder@ == self.config().funder_address@
                },
                None => true,
            },
    {
        if self.config.dry_run {
            None
        } else {
            Some(market_order_request(&plan.token_id, plan.side, plan.size, exec_price, &self.config.funder_address))
        }
    }

    /// Update our tracked positions with the answer to the order of `plan`
    /// (see `after_fill`): only a response with `success == Some(true)` counts
    /// as filled.
    pub fn record_fill(&mut self, plan: &TradePlan, response: &OrderResponse)
        ensures
            final(self).holdings() == after_fill(old(self).holdings(), plan@, response.success == Some(true)),
            final(self).sizer() == old(self).sizer(),
            final(self).config() == old(self).config(),
    {
        let filled = match response.success {
            Some(b) => b,
            None => false,
        };
        if !filled {
            return;
        }
        match plan.kind {
            TradeKind::Open => {
                match self.held(&plan.token_id) {
                    Some((size, side)) => {
                        self.put(plan.token_id.clone(), size.saturating_add(plan.size), side);
                    },
                    None => {
                        self.put(plan.token_id.clone(), plan.size, plan.side);
                    },
                }
            },
            TradeKind::Close => {
                match self.held(&plan.token_id) {
                    Some((size, side)) => {
                        if size >= plan.size && size - plan.size >= DUST_SIZE {
                            self.put(plan.token_id.clone(), size - plan.size, side);
                        } else {
                            self.drop_token(&plan.token_id);
                        }
                    },
                    None => {},
                }
            },
            TradeKind::FullClose => {
                self.drop_token(&plan.token_id);
            },
        }
    }

    /// Set our holding of `token` to `size` on `side`.
    fn put(&mut self, token: String, size: u128, side: Side)
        ensures
            final(self).holdings() == old(self).holdings().insert(token@, (size, side)),
            final(self).sizer() == old(self).sizer(),
            final(self).config() == old(self).config(),
    {
        proof {
            use_type_invariant(&*self);
        }
        let h = HeldPosition { token_id: token, size, side };
        match self.find_held(&h.token_id) {
            Some(i) => {
                proof {
                    lemma_holdings_update(held_views(self.our_positions@), i as int, h@);
                    assert(held_views(self.our_positions@.update(i as int, h)) =~= held_views(self.our_positions@).update(i as int, h@));
                }
                let mut positions: Vec<HeldPosition> = Vec::new();
                std::mem::swap(&mut positions, &mut self.our_positions);
                positions.set(i, h);
                self.our_positions = positions;
            },
            None => {
                proof {
                    lemma_holdings_push(held_views(self.our_positions@), h@);
                    assert(held_views(self.our_positions@.push(h)) =~= held_views(self.our_positions@).push(h@));
                }
                let mut positions: Vec<HeldPosition> = Vec::new();
                std::mem::swap(&mut positions, &mut self.our_positions);
                positions.push(h);
                self.our_positions = positions;
            },
        }
    }

    /// Stop tracking `token`.
    fn drop_token(&mut self, token: &String)
        ensures
            final(self).holdings() == old(self).holdings().remove(token@),
            final(self).sizer() == old(self).sizer(),
            final(self).config() == old(self).config(),
    {
        proof {
            use_type_invariant(&*self);
        }
        match self.find_held(token) {
            Some(i) => {
                proof {
                    lemma_holdings_remove(held_views(self.our_positions@), i as int);
                    assert(held_views(self.our_positions@.remove(i as int)) =~= held_views(self.our_positions@).remove(i as int));
                }
                let mut positions: Vec<HeldPosition> = Vec::new();
                std::mem::swap(&mut positions, &mut self.our_positions);
                positions.remove(i);
                self.our_positions = positions;
            },
            None => {
                assert(self.holdings().remove(token@) =~= self.holdings());
            },
        }
    }
}

/// The number of holdings is the number of tracked entries.
pub proof fn lemma_holdings_len(s: Seq<HeldView>)
    requires
        held_unique(s),
    ensures
        holdings_of(s).len() == s.len(),
{
    let m = holdings_of(s);
    let keys = Set::new(|t: Seq<char>| holds_token(s, t));
    assert(m.dom() =~= keys);
    lemma_injective_map_len(s);
}

proof fn lemma_injective_map_len(s: Seq<HeldView>)
    requires
        held_unique(s),
    ensures
        Set::new(|t: Seq<char>| holds_token(s, t)).len() == s.len(),
        Set::new(|t: Seq<char>| holds_token(s, t)).finite(),
    decreases s.len(),
{
    if s.len() == 0 {
        assert(Set::new(|t: Seq<char>| holds_token(s, t)) =~= Set::<Seq<char>>::empty());
    } else {
        let p = s.drop_last();
        assert(held_unique(p)) by {
            assert forall|a: int, b: int| 0 <= a < b < p.len() implies #[trigger] p[a].token_id != #[trigger] p[b].token_id by {
                assert(s[a].token_id != s[b].token_id);
            }
        }
        lemma_injective_map_len(p);
        let last = s.last().token_id;
        assert(!holds_token(p, last)) by {
            if holds_token(p, last) {
                let k = choose|k: int| 0 <= k < p.len() && #[trigger] p[k].token_id == last;
                assert(s[k].token_id != s[s.len() - 1].token_id);
            }
        }
        assert(Set::new(|t: Seq<char>| holds_token(s, t)) =~= Set::new(|t: Seq<char>| holds_token(p, t)).insert(last)) by {
            assert forall|t: Seq<char>| holds_token(s, t) implies holds_token(p, t) || t == last by {
                let k = choose|k: int| 0 <= k < s.len() && #[trigger] s[k].token_id == t;
                if k < p.len() { assert(p[k].token_id == t); }
            }
            assert forall|t: Seq<char>| holds_token(p, t) implies holds_token(s, t) by {
                let k = choose|k: int| 0 <= k < p.len() && #[trigger] p[k].token_id == t;
                assert(s[k].token_id == t);
            }
            assert(s[s.len() - 1].token_id == last);
        }
    }
}


/// Law: an order that was not filled leaves our tracked positions as they were.
pub proof fn lemma_unfilled_order_changes_nothing(holdings: Holdings, plan: PlanView)
    ensures
        after_fill(holdings, plan, false) == holdings,
{
}

/// Law: when the target exits a position we hold, we close all of it on the
/// opposite side, and once that order fills we no longer track the token.
pub proof fn lemma_full_close_clears_position(
    sizer: Sizer,
    holdings: Holdings,
    delta: DeltaView,
    our_balance: u64,
    target_value: u64,
)
    requires
        delta is Closed,
        holdings.contains_key(delta->Closed_token_id),
    ensures
        ({
            let t = delta->Closed_token_id;
            let p = plan_for(sizer, holdings, delta, our_balance, target_value);
            &&& p is Some
            &&& p->0.kind == TradeKind::FullClose
            &&& p->0.size == holdings[t].0
            &&& p->0.side == opposite_side(holdings[t].1)
            &&& !after_fill(holdings, p->0, true).contains_key(t)
        }),
{
}

/// Law: when the target trims a position we hold, we close at most what we
/// hold, on the opposite side; once the order fills we keep exactly the rest,
/// or drop the token when less than 0.01 share is left.
pub proof fn lemma_partial_close_within_holding(
    sizer: Sizer,
    holdings: Holdings,
    delta: DeltaView,
    our_balance: u64,
    target_value: u64,
)
    requires
        delta is Decreased,
        plan_for(sizer, holdings, delta, our_balance, target_value) is Some,
    ensures
        ({
            let t = delta->Decreased_token_id;
            let p = plan_for(sizer, holdings, delta, our_balance, target_value)->0;
            let after = after_fill(holdings, p, true);
            &&& holdings.contains_key(t)
            &&& p.kind == TradeKind::Close
            &&& p.size <= holdings[t].0
            &&& p.side == opposite_side(holdings[t].1)
            &&& after.contains_key(t) ==> after[t] == ((holdings[t].0 - p.size) as u128, holdings[t].1)
            &&& after.contains_key(t) ==> after[t].0 >= DUST_SIZE
            &&& !after.contains_key(t) ==> holdings[t].0 - p.size < DUST_SIZE
        }),
{
    let t = delta->Decreased_token_id;
    let held = holdings[t];
    crate::sizer::lemma_close_size_within_position(
        delta->Decreased_removed_size,
        saturating_sum(delta->Decreased_new_total, delta->Decreased_removed_size),
        held.0,
        DEFAULT_TICK,
    );
}

/// Law: a copy of an opened or increased position follows the sizing rules
/// (minimum bet reached, per-trade cap kept, whole ticks), and once it fills
/// our holding of the token grows by exactly its size (a new holding takes
/// the copied side).
pub proof fn lemma_open_fill_adds_copied_size(
    sizer: Sizer,
    holdings: Holdings,
    delta: DeltaView,
    our_balance: u64,
    target_value: u64,
)
    requires
        sizer.max_trade_bps() <= BPS_ONE,
        delta is Opened || delta is Increased,
        plan_for(sizer, holdings, delta, our_balance, target_value) is Some,
    ensures
        ({
            let p = plan_for(sizer, holdings, delta, our_balance, target_value)->0;
            let price = match delta {
                DeltaView::Opened { price, .. } => price,
                DeltaView::Increased { price, .. } => price,
                _ => 0u64,
            };
            let t = p.token_id;
            let after = after_fill(holdings, p, true);
            &&& p.kind == TradeKind::Open
            &&& p.size * price >= sizer.min_bet() * MICROS
            &&& p.size * price <= crate::sizer::max_cost_scaled(our_balance as int, sizer.max_trade_bps() as int)
            &&& p.size as int % DEFAULT_TICK as int == 0
            &&& p.size > 0
            &&& after.contains_key(t)
            &&& holdings.contains_key(t) ==> after[t] == (saturating_sum128(holdings[t].0, p.size), holdings[t].1)
            &&& !holdings.contains_key(t) ==> after[t] == (p.size, p.side)
        }),
{
    let (size, price) = match delta {
        DeltaView::Opened { size, price, .. } => (size, price),
        DeltaView::Increased { added_size, price, .. } => (added_size, price),
        _ => (0u64, 0u64),
    };
    crate::sizer::lemma_copy_size_within_limits(&sizer, size, target_value, our_balance, price, DEFAULT_TICK);
    let sz = sizer.size_for(size as int, target_value as int, our_balance as int, price as int, DEFAULT_TICK)->0;
    let mc = crate::sizer::max_cost_scaled(our_balance as int, sizer.max_trade_bps() as int);
    assert(mc <= u64::MAX * 10_000 * 100) by (nonlinear_arith)
        requires mc == our_balance * sizer.max_trade_bps() * 100, 0 <= our_balance <= u64::MAX,
            0 <= sizer.max_trade_bps() <= 10_000;
    assert(sz <= mc) by (nonlinear_arith)
        requires sz * price <= mc, price >= 1, sz >= 0;
}

/// Law: execution prices are whole cents; we never buy above 0.99 nor sell
/// below 0.01.
pub proof fn lemma_execution_price_bounds(
    book: Option<OrderBookResponse>,
    side: Side,
    fallback: u64,
    slippage_bps: u64,
)
    ensures
        execution_price_for(book, side, fallback, slippage_bps) % (CENT as int) == 0,
        execution_price_for(book, side, fallback, slippage_bps) >= 0,
        side == Side::Buy ==> execution_price_for(book, side, fallback, slippage_bps) <= MAX_BUY_CENTS * CENT,
        side == Side::Sell ==> execution_price_for(book, side, fallback, slippage_bps) >= MIN_SELL_CENTS * CENT,
{
    let r = reference_price_for(book, side, fallback);
    let d: int = 100_000_000;
    assert(d == (BPS_ONE * CENT) as int);
    let c = worst_price_cents(r, side, slippage_bps);
    match side {
        Side::Buy => {
            let n = r * (BPS_ONE + slippage_bps);
            assert(n >= 0) by (nonlinear_arith) requires r >= 0, slippage_bps >= 0, n == r * (BPS_ONE + slippage_bps);
            if n < MAX_BUY_CENTS * d {
                lemma_round_div_bound(n, d);
                assert(round_div(n, d) <= 99) by {
                    vstd::arithmetic::div_mod::lemma_div_is_ordered(2 * n + d, 199 * d, 2 * d);
                    assert(199 * d / (2 * d) == 99);
                }
            }
        },
        Side::Sell => {
            let n = r * (BPS_ONE - slippage_bps);
            if n >= MIN_SELL_CENTS * d {
                vstd::arithmetic::div_mod::lemma_div_is_ordered(3 * d, 2 * n + d, 2 * d);
                assert(3 * d / (2 * d) == 1);
            }
        },
    }
    vstd::arithmetic::div_mod::lemma_mod_multiples_basic(c, CENT as int);
}

/// Law: when the book's best level on our side (the best ask to buy, the best
/// bid to sell) reads as a price, the execution price starts from that price:
/// it is that price moved against us by the slippage and rounded to the cent,
/// whatever the fallback price. Two calls that differ only in the fallback
/// price agree.
pub proof fn lemma_execution_price_follows_book(
    ob: OrderBookResponse,
    side: Side,
    fallback: u64,
    other_fallback: u64,
    slippage_bps: u64,
)
    requires
        ({
            let levels = match side { Side::Buy => ob.asks, Side::Sell => ob.bids };
            levels is Some && levels->0.len() > 0 && parsed_micros(levels->0[0].price@) is Some
        }),
    ensures
        ({
            let levels = match side { Side::Buy => ob.asks, Side::Sell => ob.bids };
            let best = parsed_micros(levels->0[0].price@)->0;
            &&& execution_price_for(Some(ob), side, fallback, slippage_bps)
                == worst_price_cents(best, side, slippage_bps) * CENT
            &&& execution_price_for(Some(ob), side, fallback, slippage_bps)
                == execution_price_for(Some(ob), side, other_fallback, slippage_bps)
        }),
{
}

/// Law: an increase of the target's position is copied like an opening, on
/// the target's side, sized from the added shares alone: whatever we already
/// hold of the token, the plan is an open of the size `compute_size` gives for
/// the added size, at the delta's price, and no plan when it gives none. Two
/// calls that differ only in our holdings agree.
pub proof fn lemma_increase_is_copied_whatever_we_hold(
    sizer: Sizer,
    holdings: Holdings,
    other_holdings: Holdings,
    token_id: Seq<char>,
    condition_id: Seq<char>,
    added_size: u64,
    new_total: u64,
    side: Side,
    price: u64,
    our_balance: u64,
    target_value: u64,
)
    ensures
        ({
            let d = DeltaView::Increased { token_id, condition_id, added_size, new_total, side, price };
            &&& plan_for(sizer, holdings, d, our_balance, target_value)
                == plan_for(sizer, other_holdings, d, our_balance, target_value)
            &&& plan_for(sizer, holdings, d, our_balance, target_value) == match sizer.size_for(
                added_size as int, target_value as int, our_balance as int, price as int, DEFAULT_TICK) {
                Some(s) => Some(PlanView {
                    kind: TradeKind::Open,
                    token_id,
                    side,
                    size: s as u128,
                    reference_price: Some(price),
                }),
                None => None,
            }
        }),
{
}

/// Law: a new position of the target is copied by opening, on the target's
/// side, the size `compute_size` gives for the target's size, at the delta's
/// price, whatever we hold; no plan when it gives none.
pub proof fn lemma_open_is_copied_proportionally(
    sizer: Sizer,
    holdings: Holdings,
    token_id: Seq<char>,
    condition_id: Seq<char>,
    size: u64,
    side: Side,
    price: u64,
    our_balance: u64,
    target_value: u64,
)
    ensures
        ({
            let d = DeltaView::Opened { token_id, condition_id, size, side, price };
            plan_for(sizer, holdings, d, our_balance, target_value) == match sizer.size_for(
                size as int, target_value as int, our_balance as int, price as int, DEFAULT_TICK) {
                Some(s) => Some(PlanView {
                    kind: TradeKind::Open,
                    token_id,
                    side,
                    size: s as u128,
                    reference_price: Some(price),
                }),
                None => None,
            }
        }),
{
}

/// Law: the fallback price is what the execution price starts from exactly
/// when the book, or its best level on our side, is missing or unreadable.
pub proof fn lemma_execution_price_falls_back_without_level(
    book: Option<OrderBookResponse>,
    side: Side,
    fallback: u64,
    slippage_bps: u64,
)
    requires
        match book {
            None => true,
            Some(ob) => {
                let levels = match side { Side::Buy => ob.asks, Side::Sell => ob.bids };
                levels is None || levels->0.len() == 0 || parsed_micros(levels->0[0].price@) is None
            },
        },
    ensures
        execution_price_for(book, side, fallback, slippage_bps) == worst_price_cents(fallback, side, slippage_bps) * CENT,
{
}

/// Law: a closed position of the target is mirrored by selling (or buying
/// back) all of ours on the other side, at the midpoint the application
/// fetches, when we hold the token; and by nothing when we do not.
pub proof fn lemma_close_mirrors_our_whole_position(
    sizer: Sizer,
    holdings: Holdings,
    token_id: Seq<char>,
    condition_id: Seq<char>,
    old_size: u64,
    side: Side,
    our_balance: u64,
    target_value: u64,
)
    ensures
        ({
            let d = DeltaView::Closed { token_id, condition_id, old_size, side };
            plan_for(sizer, holdings, d, our_balance, target_value) == if holdings.contains_key(token_id) {
                Some(PlanView {
                    kind: TradeKind::FullClose,
                    token_id,
                    side: opposite_side(holdings[token_id].1),
                    size: holdings[token_id].0,
                    reference_price: None,
                })
            } else {
                None
            }
        }),
{
}

/// Law: a decrease of the target's position is copied, when we hold the
/// token, by closing the same fraction of ours (`compute_close_size` of the
/// removed size over the size before), on the side opposite to ours, at the
/// delta's price; and by nothing when we do not hold it.
pub proof fn lemma_decrease_closes_same_fraction(
    sizer: Sizer,
    holdings: Holdings,
    token_id: Seq<char>,
    condition_id: Seq<char>,
    removed_size: u64,
    new_total: u64,
    side: Side,
    price: u64,
    our_balance: u64,
    target_value: u64,
)
    requires
        new_total + removed_size <= u64::MAX,
    ensures
        ({
            let d = DeltaView::Decreased { token_id, condition_id, removed_size, new_total, side, price };
            plan_for(sizer, holdings, d, our_balance, target_value) == if holdings.contains_key(token_id) {
                match Sizer::close_size_for(removed_size as int, new_total + removed_size,
                    holdings[token_id].0 as int, DEFAULT_TICK) {
                    Some(c) => Some(PlanView {
                        kind: TradeKind::Close,
                        token_id,
                        side: opposite_side(holdings[token_id].1),
                        size: c as u128,
                        reference_price: Some(price),
                    }),
                    None => None,
                }
            } else {
                None
            }
        }),
{
}

/// Law: more slippage never makes our price better for us: a buy's worst
/// price never falls and a sell's never rises as the slippage grows.
pub proof fn lemma_slippage_moves_price_against_us(reference: u64, side: Side, less: u64, more: u64)
    requires
        less <= more,
    ensures
        side == Side::Buy ==> worst_price_cents(reference, side, less) <= worst_price_cents(reference, side, more),
        side == Side::Sell ==> worst_price_cents(reference, side, less) >= worst_price_cents(reference, side, more),
{
    let d: int = 100_000_000;
    assert(d == (BPS_ONE * CENT) as int);
    match side {
        Side::Buy => {
            let n1 = reference * (BPS_ONE + less);
            let n2 = reference * (BPS_ONE + more);
            assert(0 <= n1 <= n2) by (nonlinear_arith)
                requires reference >= 0, 0 <= less <= more, n1 == reference * (BPS_ONE + less),
                    n2 == reference * (BPS_ONE + more);
            if n1 < MAX_BUY_CENTS * d {
                vstd::arithmetic::div_mod::lemma_div_is_ordered(2 * n1 + d, 199 * d, 2 * d);
                assert(199 * d / (2 * d) == 99);
                if n2 < MAX_BUY_CENTS * d {
                    vstd::arithmetic::div_mod::lemma_div_is_ordered(2 * n1 + d, 2 * n2 + d, 2 * d);
                }
            }
        },
        Side::Sell => {
            let n1 = reference * (BPS_ONE - less);
            let n2 = reference * (BPS_ONE - more);
            assert(n2 <= n1) by (nonlinear_arith)
                requires reference >= 0, less <= more, n1 == reference * (BPS_ONE - less),
                    n2 == reference * (BPS_ONE - more);
            if n2 >= MIN_SELL_CENTS * d {
                vstd::arithmetic::div_mod::lemma_div_is_ordered(2 * n2 + d, 2 * n1 + d, 2 * d);
            }
            if n1 >= MIN_SELL_CENTS * d {
                vstd::arithmetic::div_mod::lemma_div_is_ordered(3 * d, 2 * n1 + d, 2 * d);
                assert(3 * d / (2 * d) == 1);
            }
        },
    }
}


/// Our holdings after a sync hold, for each token, the last qualifying report.
proof fn lemma_holdings_from_last_report(ps: Seq<Position>, t: Seq<char>)
    ensures
        match last_report(ps, t) {
            Some(e) => holdings_from_positions(ps).contains_key(t)
                && holdings_from_positions(ps)[t] == (e.size as u128, e.side),
            None => !holdings_from_positions(ps).contains_key(t),
        },
    decreases ps.len(),
{
    if ps.len() > 0 {
        lemma_holdings_from_last_report(ps.drop_last(), t);
    }
}

/// Law: our tracked positions after a sync and the monitor's snapshot of the
/// same report agree: the same tokens, with the same size and side.
pub proof fn lemma_sync_agrees_with_snapshot(ps: Seq<Position>, t: Seq<char>)
    ensures
        holdings_from_positions(ps).contains_key(t) == (token_index(snapshot_of_positions(ps), t) is Some),
        match token_index(snapshot_of_positions(ps), t) {
            Some(i) => holdings_from_positions(ps)[t]
                == (snapshot_of_positions(ps)[i].size as u128, snapshot_of_positions(ps)[i].side),
            None => true,
        },
{
    lemma_holdings_from_last_report(ps, t);
    lemma_snapshot_holds_last_report(ps, t);
}

} // verus!
