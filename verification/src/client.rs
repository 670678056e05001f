//! What the Polymarket client computes around its HTTP calls: the orders it
//! sends, the URLs it requests, and how it reads balances, positions and
//! prices out of the answers. The calls themselves are made by the
//! application.
use vstd::prelude::*;
use vstd::string::StringExecFns;

use crate::auth::{base64_decoded, build_hmac_headers, header_views, hmac_headers, AuthError};
use crate::config::Config;
use crate::monitor::DEFAULT_PRICE;
use crate::text::{i64_to_decimal, int_decimal, parse_decimal_micros, parsed_micros};
use crate::types::{BalanceAllowance, OrderRequest, OrderType, Position, Side};
use crate::units::MICROS;

verus! {

/// Build a market-like order: fill-or-kill at `worst_price`.
pub fn market_order_request(token_id: &String, side: Side, size: u128, worst_price: u128, funder: &String) -> (o: OrderRequest)
    ensures
        o.token_id@ == token_id@,
        o.price == worst_price,
        o.size == size,
        o.side == side,
        o.order_type == OrderType::Fok,
        o.funder@ == funder@,
{
    OrderRequest {
        token_id: token_id.clone(),
        price: worst_price,
        size,
        side,
        order_type: OrderType::Fok,
        funder: funder.clone(),
    }
}

/// Build a limit order, good til cancelled, at `price`.
pub fn limit_order_request(token_id: &String, side: Side, size: u128, price: u128, funder: &String) -> (o: OrderRequest)
    ensures
        o.token_id@ == token_id@,
        o.price == price,
        o.size == size,
        o.side == side,
        o.order_type == OrderType::Gtc,
        o.funder@ == funder@,
{
    OrderRequest {
        token_id: token_id.clone(),
        price,
        size,
        side,
        order_type: OrderType::Gtc,
        funder: funder.clone(),
    }
}

/// `base + suffix`.
fn joined(base: &String, suffix: &str) -> (r: String)
    ensures
        r@ == base@ + suffix@,
{
    let mut r = base.clone();
    r.append(suffix);
    r
}

/// URL of the server time endpoint (health check and clock sync).
pub fn server_time_url(config: &Config) -> (u: String)
    ensures
        u@ == config.clob_api_url@ + "/time"@,
{
    joined(&config.clob_api_url, "/time")
}

/// URL of the order book of a token.
pub fn order_book_url(config: &Config, token_id: &str) -> (u: String)
    ensures
        u@ == config.clob_api_url@ + "/book?token_id="@ + token_id@,
{
    let mut u = joined(&config.clob_api_url, "/book?token_id=");
    u.append(token_id);
    u
}

/// URL of a market, by condition id.
pub fn market_url(config: &Config, condition_id: &str) -> (u: String)
    ensures
        u@ == config.clob_api_url@ + "/markets/"@ + condition_id@,
{
    let mut u = joined(&config.clob_api_url, "/markets/");
    u.append(condition_id);
    u
}

/// URL of the midpoint price of a token.
pub fn midpoint_url(config: &Config, token_id: &str) -> (u: String)
    ensures
        u@ == config.clob_api_url@ + "/midpoint?token_id="@ + token_id@,
{
    let mut u = joined(&config.clob_api_url, "/midpoint?token_id=");
    u.append(token_id);
    u
}

/// URL of the best bid and ask of a token.
pub fn spread_url(config: &Config, token_id: &str) -> (u: String)
    ensures
        u@ == config.clob_api_url@ + "/spread?token_id="@ + token_id@,
{
    let mut u = joined(&config.clob_api_url, "/spread?token_id=");
    u.append(token_id);
    u
}

/// URL of the recent activity of a wallet on the data API.
pub fn wallet_activity_url(config: &Config, wallet: &str, limit: u32) -> (u: String)
    ensures
        u@ == config.gamma_api_url@ + "/activity?user="@ + wallet@ + "&limit="@ + int_decimal(limit as int),
{
    let mut u = joined(&config.gamma_api_url, "/activity?user=");
    u.append(wallet);
    u.append("&limit=");
    let l = i64_to_decimal(limit as i64);
    u.append(l.as_str());
    u
}

/// URL of the current positions of a wallet on the data API.
pub fn wallet_positions_url(config: &Config, wallet: &str) -> (u: String)
    ensures
        u@ == config.gamma_api_url@ + "/positions?user="@ + wallet@ + "&sizeThreshold=0&limit=500"@,
{
    let mut u = joined(&config.gamma_api_url, "/positions?user=");
    u.append(wallet);
    u.append("&sizeThreshold=0&limit=500");
    u
}

/// An authenticated request to the CLOB, ready to send.
pub struct ClobRequest {
    /// The HTTP method, as given.
    pub method: String,
    /// Full URL: the CLOB base URL followed by the path.
    pub url: String,
    /// The signed `POLY_HMAC_*` headers.
    pub headers: Vec<(String, String)>,
    /// The body; sent with a JSON content type when not empty.
    pub body: String,
}

/// The body of a request as text: empty when there is none.
pub open spec fn body_text_of(body: Option<&str>) -> Seq<char> {
    match body {
        Some(b) => b@,
        None => Seq::empty(),
    }
}

/// Prepare an authenticated CLOB request: the URL is the CLOB base URL and
/// `path`, the headers sign `method`, `path` and the body (empty when none)
/// with our credentials, as `build_hmac_headers` does, whose errors it
/// passes on.
pub fn clob_request(config: &Config, method: &str, path: &str, body: Option<&str>) -> (r: Result<ClobRequest, AuthError>)
    ensures
        ({
            let body_text = body_text_of(body);
            &&& base64_decoded(config.api_secret@) is None ==> r is Err
            &&& match r {
                Ok(req) => {
                    &&& base64_decoded(config.api_secret@) is Some
                    &&& req.method@ == method@
                    &&& req.url@ == config.clob_api_url@ + path@
                    &&& req.body@ == body_text
                    &&& exists|t: i64| t >= 0 && header_views(req.headers@) == #[trigger] hmac_headers(
                        config.api_key@, base64_decoded(config.api_secret@)->0, config.api_passphrase@,
                        method@, path@, body_text, t)
                },
                Err(AuthError::InvalidSecret) => base64_decoded(config.api_secret@) is None,
                Err(AuthError::InvalidKeyLength) => false,
                Err(AuthError::ClockUnavailable) => true,
            }
        }),
{
    let body_str: &str = match body {
        Some(b) => b,
        None => "",
    };
    proof {
        reveal_strlit("");
    }
    let ghost body_text = body_text_of(body);
    assert(body_str@ == body_text);
    let headers = match build_hmac_headers(
        config.api_key.as_str(),
        config.api_secret.as_str(),
        config.api_passphrase.as_str(),
        method,
        path,
        body_str,
    ) {
        Ok(h) => h,
        Err(e) => return Err(e),
    };
    Ok(ClobRequest {
        method: String::from_str(method),
        url: joined(&config.clob_api_url, path),
        headers,
        body: String::from_str(body_str),
    })
}

// ─── Balance ──────────────────────────────────────────────────────

/// Balance reported by the CLOB balance-allowance endpoint, micro-USDC: the
/// balance text read as an amount (none or unreadable counts as zero); `None`
/// when that is zero, so that the next source is tried.
pub open spec fn allowance_balance(ba: BalanceAllowance) -> Option<u64> {
    let v = match ba.balance {
        Some(s) => match parsed_micros(s@) { Some(v) => v, None => 0u64 },
        None => 0u64,
    };
    if v > 0 { Some(v) } else { None }
}

/// First source of our balance: the CLOB balance-allowance answer.
pub fn balance_from_allowance(ba: &BalanceAllowance) -> (r: Option<u64>)
    ensures
        r == allowance_balance(*ba),
{
    let v = match &ba.balance {
        Some(s) => match parse_decimal_micros(s.as_str()) {
            Some(v) => v,
            None => 0,
        },
        None => 0,
    };
    if v > 0 {
        Some(v)
    } else {
        None
    }
}

/// Sum of the current values of positions (a missing value counts as zero).
pub open spec fn current_value_sum(ps: Seq<Position>) -> int
    decreases ps.len(),
{
    if ps.len() == 0 {
        0
    } else {
        current_value_sum(ps.drop_last()) + match ps.last().current_value { Some(v) => v as int, None => 0 }
    }
}

/// The current value of positions as a balance, micro-USDC: none unless it
/// exceeds 0.01 USDC; saturates at the largest `u64`.
pub open spec fn positions_balance(ps: Seq<Position>) -> Option<u64> {
    let total = if current_value_sum(ps) <= u64::MAX { current_value_sum(ps) } else { u64::MAX as int };
    if total > 10_000 { Some(total as u64) } else { None }
}

/// Second source of our balance: the current value of our positions, when it
/// exceeds 0.01 USDC; saturates at the largest `u64`.
pub fn balance_from_positions(positions: &[Position]) -> (r: Option<u64>)
    ensures
        r == positions_balance(positions@),
{
    let mut total: u64 = 0;
    let n = positions.len();
    assert(positions@.take(0) =~= Seq::<Position>::empty());
    for i in 0..n
        invariant
            n == positions@.len(),
            current_value_sum(positions@.take(i as int)) >= 0,
            total == if current_value_sum(positions@.take(i as int)) <= u64::MAX {
                current_value_sum(positions@.take(i as int))
            } else {
                u64::MAX as int
            },
    {
        assert(positions@.take(i + 1).drop_last() =~= positions@.take(i as int));
        let cv: u64 = match positions[i].current_value {
            Some(v) => v,
            None => 0,
        };
        total = total.saturating_add(cv);
    }
    assert(positions@.take(n as int) =~= positions@);
    if total > 10_000 {
        Some(total)
    } else {
        None
    }
}

/// Last source of our balance: the configured initial balance when positive, else zero.
pub fn balance_fallback(config: &Config) -> (b: u64)
    ensures
        b == fallback_balance(config.initial_balance),
{
    match config.initial_balance {
        Some(ib) => if ib > 0 { ib } else { 0 },
        None => 0,
    }
}

/// The configured initial balance when positive, else zero.
pub open spec fn fallback_balance(initial_balance: Option<u64>) -> u64 {
    match initial_balance {
        Some(ib) => if ib > 0 { ib } else { 0 },
        None => 0,
    }
}

/// Our balance from its sources, in order: the CLOB balance-allowance answer
/// when it was received and gives a positive balance; else the value of our
/// positions when they were received and it exceeds 0.01 USDC; else the
/// configured initial balance when positive; else zero. `None` stands for a
/// request that failed (or an answer that could not be read).
pub open spec fn resolved_balance(
    allowance: Option<BalanceAllowance>,
    positions: Option<Seq<Position>>,
    initial_balance: Option<u64>,
) -> u64 {
    let from_allowance = match allowance { Some(ba) => allowance_balance(ba), None => None };
    match from_allowance {
        Some(b) => b,
        None => {
            let from_positions = match positions { Some(ps) => positions_balance(ps), None => None };
            match from_positions {
                Some(b) => b,
                None => fallback_balance(initial_balance),
            }
        },
    }
}

/// The balance sources are asked in order. A positive balance-allowance
/// answer is the balance, whatever the positions and the configured initial
/// balance. Without one, positions worth more than 0.01 USDC give the balance,
/// whatever the initial balance. Without either, the balance is the configured
/// initial balance when positive, else zero; a source that failed counts as
/// one that gave nothing.
pub proof fn balance_source_order(
    allowance: Option<BalanceAllowance>,
    positions: Option<Seq<Position>>,
    initial_balance: Option<u64>,
)
    ensures
        allowance is Some && allowance_balance(allowance->0) is Some
            ==> resolved_balance(allowance, positions, initial_balance)
                == allowance_balance(allowance->0)->0,
        (allowance is None || allowance_balance(allowance->0) is None)
            && positions is Some && positions_balance(positions->0) is Some
            ==> resolved_balance(allowance, positions, initial_balance)
                == positions_balance(positions->0)->0,
        (allowance is None || allowance_balance(allowance->0) is None)
            && (positions is None || positions_balance(positions->0) is None)
            ==> resolved_balance(allowance, positions, initial_balance) == fallback_balance(initial_balance),
        resolved_balance(None, None, initial_balance) == (match initial_balance {
            Some(ib) => ib,
            None => 0u64,
        }),
{
}

/// Choose our balance from the answers of its sources (see `resolved_balance`).
/// The positions are needed only when the balance-allowance answer gives no
/// positive balance.
pub fn resolve_balance(allowance: Option<&BalanceAllowance>, positions: Option<&[Position]>, config: &Config) -> (b: u64)
    ensures
        b == resolved_balance(
            match allowance { Some(a) => Some(*a), None => None },
            match positions { Some(p) => Some(p@), None => None },
            config.initial_balance,
        ),
{
    let from_allowance = match allowance {
        Some(ba) => balance_from_allowance(ba),
        None => None,
    };
    if let Some(b) = from_allowance {
        return b;
    }
    let from_positions = match positions {
        Some(ps) => balance_from_positions(ps),
        None => None,
    };
    match from_positions {
        Some(b) => b,
        None => balance_fallback(config),
    }
}

// ─── Positions ────────────────────────────────────────────────────

/// Positions that can still be traded: those not marked redeemable (market
/// resolved), in their order.
pub open spec fn active_positions_of(ps: Seq<Position>) -> Seq<Position>
    decreases ps.len(),
{
    if ps.len() == 0 {
        Seq::empty()
    } else {
        let rest = active_positions_of(ps.drop_last());
        if ps.last().redeemable == Some(true) { rest } else { rest.push(ps.last()) }
    }
}

/// Filter out settled/redeemable positions (market resolved, not tradeable).
pub fn active_positions(raw: Vec<Position>) -> (r: Vec<Position>)
    ensures
        r@ == active_positions_of(raw@),
{
    let mut kept: Vec<Position> = Vec::new();
    let mut raw = raw;
    let ghost all = raw@;
    let n = raw.len();
    // take the positions from the back, then restore the order
    let mut rev: Vec<Position> = Vec::new();
    assert(all.take(0) =~= Seq::<Position>::empty());
    let mut i: usize = 0;
    while i < n
        invariant
            n == all.len(),
            i <= n,
            raw@ == all.take(n - i),
            rev@.len() == i,
            forall|j: int| 0 <= j < i ==> #[trigger] rev@[j] == all[n - 1 - j],
        decreases n - i,
    {
        let p = raw.pop().unwrap();
        rev.push(p);
        assert(all.take(n - i).drop_last() =~= all.take(n - i - 1));
        i = i + 1;
    }
    let mut k: usize = 0;
    assert(all.take(0) =~= Seq::<Position>::empty());
    while k < n
        invariant
            n == all.len(),
            k <= n,
            rev@.len() == n - k,
            forall|j: int| 0 <= j < n - k ==> #[trigger] rev@[j] == all[n - 1 - j],
            kept@ == active_positions_of(all.take(k as int)),
        decreases n - k,
    {
        let p = rev.pop().unwrap();
        assert(p == all[k as int]);
        assert(all.take(k + 1).drop_last() =~= all.take(k as int));
        assert(all.take(k + 1).last() == all[k as int]);
        let redeemable = match p.redeemable {
            Some(b) => b,
            None => false,
        };
        if !redeemable {
            kept.push(p);
        }
        k = k + 1;
    }
    assert(all.take(n as int) =~= all);
    kept
}

/// The price used to value a position: current price, else average entry
/// price, else 0.5.
pub open spec fn valuation_price(p: Position) -> u64 {
    match p.cur_price {
        Some(c) => c,
        None => match p.avg_price { Some(a) => a, None => DEFAULT_PRICE },
    }
}

/// Sum of size times valuation price, scaled by `MICROS` (size missing counts as zero).
pub open spec fn position_value_sum(ps: Seq<Position>) -> int
    decreases ps.len(),
{
    if ps.len() == 0 {
        0
    } else {
        position_value_sum(ps.drop_last())
            + (match ps.last().size { Some(s) => s as int, None => 0 }) * valuation_price(ps.last())
    }
}

/// Estimated portfolio value of a wallet, micro-USDC: the sum of size times
/// price over its positions plus its idle USDC, at least 1 USDC (so that it
/// can divide), and at most the largest `u64`.
pub open spec fn estimated_value(ps: Seq<Position>, idle_usdc: u64) -> int {
    let v = position_value_sum(ps) / (MICROS as int) + idle_usdc;
    let capped = if v <= u64::MAX { v } else { u64::MAX as int };
    if capped < MICROS { MICROS as int } else { capped }
}

/// Estimate a wallet's total portfolio value: its positions valued at their
/// price, plus its idle USDC (micro-USDC).
pub fn estimate_wallet_value(positions: &[Position], idle_usdc: u64) -> (v: u64)
    ensures
        v == estimated_value(positions@, idle_usdc),
        v >= MICROS,
{
    let mut total: u128 = 0;
    let n = positions.len();
    assert(positions@.take(0) =~= Seq::<Position>::empty());
    for i in 0..n
        invariant
            n == positions@.len(),
            position_value_sum(positions@.take(i as int)) >= 0,
            total == if position_value_sum(positions@.take(i as int)) <= u128::MAX {
                position_value_sum(positions@.take(i as int))
            } else {
                u128::MAX as int
            },
    {
        assert(positions@.take(i + 1).drop_last() =~= positions@.take(i as int));
        let p = &positions[i];
        let size: u64 = match p.size {
            Some(s) => s,
            None => 0,
        };
        let price: u64 = match p.cur_price {
            Some(c) => c,
            None => match p.avg_price {
                Some(a) => a,
                None => DEFAULT_PRICE,
            },
        };
        assert(size * price <= u64::MAX * u64::MAX) by (nonlinear_arith)
            requires 0 <= size <= u64::MAX, 0 <= price <= u64::MAX;
        assert(size * price >= 0) by (nonlinear_arith)
            requires 0 <= size, 0 <= price;
        total = total.saturating_add(size as u128 * price as u128);
    }
    assert(positions@.take(n as int) =~= positions@);
    let held: u128 = total / MICROS as u128;
    proof {
        let s = position_value_sum(positions@);
        if s > u128::MAX {
            assert(u128::MAX as int / MICROS as int > u64::MAX);
            vstd::arithmetic::div_mod::lemma_div_is_ordered(u128::MAX as int, s, MICROS as int);
        }
        vstd::arithmetic::div_mod::lemma_div_is_ordered(total as int, u128::MAX as int, MICROS as int);
        assert(u128::MAX as int / MICROS as int + u64::MAX <= u128::MAX);
    }
    let v: u128 = held + idle_usdc as u128;
    let capped: u64 = if v <= u64::MAX as u128 { v as u64 } else { u64::MAX };
    if capped < MICROS {
        MICROS
    } else {
        capped
    }
}

/// Midpoint price of a token from the `mid` field of the answer, micro-USDC:
/// the field read as an amount; zero when it is missing or unreadable.
pub fn midpoint_from_field(mid: Option<&str>) -> (p: u64)
    ensures
        p == match mid {
            Some(s) => match parsed_micros(s@) { Some(v) => v, None => 0 },
            None => 0,
        },
{
    match mid {
        Some(s) => match parse_decimal_micros(s) {
            Some(v) => v,
            None => 0,
        },
        None => 0,
    }
}

} // verus!
