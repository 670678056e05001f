use vstd::prelude::*;

use crate::config::Config;
use crate::units::{BPS_ONE, DEFAULT_TICK, MICROS};
use vstd::arithmetic::div_mod::{lemma_fundamental_div_mod, lemma_div_pos_is_pos};

verus! {

/// Largest share of our balance, in basis points, that one copy trade may cost (25%).
pub const MAX_SINGLE_TRADE_BPS: u64 = 2_500;

/// Position sizing engine.
///
/// Scales target trades proportionally to our wallet vs the target wallet:
/// `our_size = target_trade_size * (our_balance / target_value)`, capped so that
/// one trade never costs more than a fixed fraction of our balance, rounded
/// down to the tick size, and bumped up to the minimum bet when that is
/// affordable.
///
/// Units: sizes are micro-shares, prices micro-USDC per share, balances and
/// values micro-USDC. The cost of `size` at `price` is `size * price / MICROS`
/// micro-USDC.
pub struct Sizer {
    min_bet: u64,
    max_single_trade_bps: u64,
}

/// The tick used for rounding: the given one, or 0.01 share when it is zero.
pub open spec fn effective_tick(tick_size: u64) -> int {
    if tick_size > 0 { tick_size as int } else { DEFAULT_TICK as int }
}

/// `x` rounded down to a multiple of `tick`.
pub open spec fn floor_to_tick(x: int, tick: int) -> int {
    x / tick * tick
}

/// Size proportional to the target's trade: `target_size * balance / target_value`, rounded down.
pub open spec fn proportional_size(target_size: int, target_value: int, balance: int) -> int {
    target_size * balance / target_value
}

/// Largest cost allowed for one trade, scaled by `MICROS`:
/// `balance * bps / BPS_ONE` micro-USDC, times `MICROS`.
pub open spec fn max_cost_scaled(balance: int, bps: int) -> int {
    balance * bps * (MICROS as int / BPS_ONE as int)
}

/// Largest size whose cost stays within the per-trade cap, rounded down.
pub open spec fn capped_size(balance: int, price: int, bps: int) -> int {
    max_cost_scaled(balance, bps) / price
}

/// Smallest multiple of `tick` whose cost reaches `min_bet`:
/// `ceil(min_bet / price / tick) * tick`.
pub open spec fn min_bet_size(min_bet: int, price: int, tick: int) -> int {
    let need = min_bet * MICROS;
    let per = price * tick;
    (if (need / per) * per < need { need / per + 1 } else { need / per }) * tick
}

/// The smaller of two integers.
pub open spec fn min_int(a: int, b: int) -> int {
    if a <= b { a } else { b }
}

/// For a positive divisor, `m * p <= x` exactly when `m <= x / p`.
pub proof fn lemma_mul_le_iff_le_div(m: int, p: int, x: int)
    requires
        p > 0,
    ensures
        (m * p <= x) == (m <= x / p),
{
    lemma_fundamental_div_mod(x, p);
    let q = x / p;
    let r = x % p;
    assert(x == p * q + r && 0 <= r < p);
    if m <= q {
        assert(m * p <= q * p) by (nonlinear_arith)
            requires m <= q, p > 0;
        assert(q * p == p * q) by (nonlinear_arith);
    } else {
        assert(m * p >= (q + 1) * p) by (nonlinear_arith)
            requires m >= q + 1, p > 0;
        assert((q + 1) * p == p * q + p) by (nonlinear_arith);
    }
}

/// `x / d * d` never exceeds `x` and is a multiple of `d`, for `x >= 0`.
pub proof fn lemma_floor_to_tick_bounds(x: int, d: int)
    requires
        x >= 0,
        d > 0,
    ensures
        0 <= floor_to_tick(x, d) <= x,
        floor_to_tick(x, d) % d == 0,
        x < d ==> floor_to_tick(x, d) == 0,
        x >= d ==> floor_to_tick(x, d) >= d,
{
    lemma_fundamental_div_mod(x, d);
    let q = x / d;
    assert(q >= 0) by {
        if x >= d { lemma_div_pos_is_pos(x, d); } else { vstd::arithmetic::div_mod::lemma_basic_div(x, d); }
    }
    assert(q * d == d * q) by (nonlinear_arith);
    assert((q * d) % d == 0) by {
        vstd::arithmetic::div_mod::lemma_mod_multiples_basic(q, d);
    }
    if x < d {
        vstd::arithmetic::div_mod::lemma_basic_div(x, d);
    } else {
        assert(q >= 1) by {
            vstd::arithmetic::div_mod::lemma_div_by_self(d);
            vstd::arithmetic::div_mod::lemma_div_is_ordered(d, x, d);
        }
        assert(q * d >= d) by (nonlinear_arith)
            requires q >= 1, d > 0;
    }
}

impl Sizer {
    /// Minimum bet in micro-USDC.
    pub closed spec fn min_bet(&self) -> u64 {
        self.min_bet
    }

    /// Per-trade cap in basis points of our balance.
    pub closed spec fn max_trade_bps(&self) -> u64 {
        self.max_single_trade_bps
    }

    #[verifier::type_invariant]
    closed spec fn inv(&self) -> bool {
        &&& self.min_bet >= MICROS
        &&& self.max_single_trade_bps <= BPS_ONE
    }

    /// What `compute_size` returns, over mathematical integers.
    pub open spec fn size_for(
        &self,
        target_trade_size: int,
        target_value: int,
        our_balance: int,
        price: int,
        tick_size: u64,
    ) -> Option<int> {
        if target_value <= 0 || our_balance <= 0 || price <= 0 {
            None
        } else {
            let tick = effective_tick(tick_size);
            let bps = self.max_trade_bps() as int;
            let scaled = floor_to_tick(
                min_int(
                    proportional_size(target_trade_size, target_value, our_balance),
                    capped_size(our_balance, price, bps),
                ),
                tick,
            );
            let bumped = if scaled * price < self.min_bet() * MICROS {
                let m = min_bet_size(self.min_bet() as int, price, tick);
                if m * price <= max_cost_scaled(our_balance, bps) { Some(m) } else { None }
            } else {
                Some(scaled)
            };
            match bumped {
                Some(s) => if s < tick { None } else { Some(s) },
                None => None,
            }
        }
    }

    /// What `compute_close_size` returns, over mathematical integers.
    pub open spec fn close_size_for(
        target_closed_size: int,
        target_total_before: int,
        our_position_size: int,
        tick_size: u64,
    ) -> Option<int> {
        if target_total_before <= 0 || our_position_size <= 0 {
            None
        } else {
            let tick = effective_tick(tick_size);
            let closed = min_int(target_closed_size, target_total_before);
            let s = floor_to_tick(our_position_size * closed / target_total_before, tick);
            if s < tick { None } else { Some(s) }
        }
    }

    /// A sizer whose minimum bet is the configured one, but never below 1 USDC
    /// (the exchange minimum), and whose per-trade cap is 25% of our balance.
    pub fn new(config: &Config) -> (s: Sizer)
        ensures
            s.min_bet() == if config.min_bet_size >= MICROS { config.min_bet_size as int } else { MICROS as int },
            s.max_trade_bps() == MAX_SINGLE_TRADE_BPS,
    {
        let min_bet = if config.min_bet_size >= MICROS { config.min_bet_size } else { MICROS };
        Sizer { min_bet, max_single_trade_bps: MAX_SINGLE_TRADE_BPS }
    }

    /// Compute the proportional size we should trade.
    ///
    /// - `target_trade_size`: the size the target traded (micro-shares)
    /// - `target_value`: estimated total portfolio value of the target (micro-USDC)
    /// - `our_balance`: our available balance (micro-USDC)
    /// - `price`: current price of the asset (micro-USDC per share)
    /// - `tick_size`: size increment for rounding (micro-shares; 0 means 0.01 share)
    ///
    /// Returns `None` if the scaled size is below the minimum and the minimum is
    /// not affordable, or when an input that must be positive is zero.
    #[verifier::spinoff_prover]
    pub fn compute_size(
        &self,
        target_trade_size: u64,
        target_value: u64,
        our_balance: u64,
        price: u64,
        tick_size: u64,
    ) -> (res: Option<u128>)
        ensures
            res == (match self.size_for(
                target_trade_size as int,
                target_value as int,
                our_balance as int,
                price as int,
                tick_size,
            ) {
                Some(s) => Some(s as u128),
                None => None::<u128>,
            }),
            res is Some ==> self.size_for(target_trade_size as int, target_value as int,
                our_balance as int, price as int, tick_size) == Some(res->0 as int),
    {
        proof {
            use_type_invariant(self);
        }
        if target_value == 0 || our_balance == 0 || price == 0 {
            return None;
        }
        let ghost t = target_trade_size as int;
        let ghost v = target_value as int;
        let ghost b = our_balance as int;
        let ghost p = price as int;
        let tick: u128 = if tick_size > 0 { tick_size as u128 } else { DEFAULT_TICK as u128 };
        let ghost tk = tick as int;
        assert(t * b <= u64::MAX * u64::MAX) by (nonlinear_arith)
            requires 0 <= t <= u64::MAX, 0 <= b <= u64::MAX;
        let product: u128 = target_trade_size as u128 * our_balance as u128;
        let prop: u128 = product / target_value as u128;
        assert(b * self.max_single_trade_bps * 100 <= u64::MAX * 10_000 * 100) by (nonlinear_arith)
            requires 0 <= b <= u64::MAX, 0 <= self.max_single_trade_bps <= 10_000;
        let max_cost: u128 = our_balance as u128 * self.max_single_trade_bps as u128 * 100;
        assert(max_cost as int == max_cost_scaled(b, self.max_trade_bps() as int));
        let cap: u128 = max_cost / price as u128;
        let lower: u128 = if prop <= cap { prop } else { cap };
        assert(lower as int == min_int(proportional_size(t, v, b), capped_size(b, p, self.max_trade_bps() as int)));
        proof {
            lemma_floor_to_tick_bounds(lower as int, tk);
        }
        let scaled: u128 = lower / tick * tick;
        proof {
            lemma_mul_le_iff_le_div(scaled as int, p, max_cost as int);
        }
        let need: u128 = self.min_bet as u128 * MICROS as u128;
        let result: u128 = if scaled * (price as u128) < need {
            assert(p * tk <= u64::MAX * u64::MAX) by (nonlinear_arith)
                requires 0 < p <= u64::MAX, 0 < tk <= u64::MAX;
            assert(p * tk >= 1) by (nonlinear_arith)
                requires p >= 1, tk >= 1;
            let per: u128 = price as u128 * tick;
            let q: u128 = need / per;
            proof {
                lemma_fundamental_div_mod(need as int, per as int);
                assert(q >= 0) by { vstd::arithmetic::div_mod::lemma_div_pos_is_pos(need as int, per as int); }
                assert(q * per <= need) by (nonlinear_arith)
                    requires need as int == per * q + need as int % per as int, need as int % per as int >= 0;
            }
            let k: u128 = if q * per < need { q + 1 } else { q };
            assert(k * tk <= need + tk) by (nonlinear_arith)
                requires
                    q * per <= need, per == p * tk, p >= 1, tk >= 1, q >= 0,
                    k == q || k == q + 1;
            let min_size: u128 = k * tick;
            assert(min_size as int == min_bet_size(self.min_bet() as int, p, tk));
            proof {
                lemma_mul_le_iff_le_div(min_size as int, p, max_cost as int);
            }
            if min_size <= cap {
                min_size
            } else {
                return None;
            }
        } else {
            scaled
        };
        if result < tick {
            None
        } else {
            Some(result)
        }
    }

    /// For closing positions: when the target closes X% of their position, we
    /// close X% of ours (at most all of it), rounded down to the tick size.
    /// Returns `None` when that is less than one tick or an input is zero.
    pub fn compute_close_size(
        &self,
        target_closed_size: u64,
        target_total_before: u64,
        our_position_size: u128,
        tick_size: u64,
    ) -> (res: Option<u128>)
        ensures
            res is Some <==> Self::close_size_for(target_closed_size as int,
                target_total_before as int, our_position_size as int, tick_size) is Some,
            res is Some ==> Self::close_size_for(target_closed_size as int,
                target_total_before as int, our_position_size as int, tick_size) == Some(res->0 as int),
    {
        if target_total_before == 0 || our_position_size == 0 {
            return None;
        }
        let ghost o = our_position_size as int;
        let ghost n = target_total_before as int;
        let closed: u64 = if target_closed_size <= target_total_before { target_closed_size } else { target_total_before };
        let ghost c = closed as int;
        // our * closed / total, computed without overflow as q * closed + r * closed / total
        let total: u128 = target_total_before as u128;
        let q: u128 = our_position_size / total;
        let r: u128 = our_position_size % total;
        proof {
            lemma_fundamental_div_mod(o, n);
            vstd::arithmetic::div_mod::lemma_mod_pos_bound(o, n);
            assert(q >= 0) by { vstd::arithmetic::div_mod::lemma_div_pos_is_pos(o, n); }
            assert(q * c <= q * n) by (nonlinear_arith) requires 0 <= c <= n, q >= 0;
            assert(q * n <= o) by (nonlinear_arith) requires o == n * q + r, r >= 0;
            assert(r * c < n * n) by (nonlinear_arith) requires 0 <= r < n, 0 <= c <= n;
            assert(n * n <= u64::MAX * u64::MAX) by (nonlinear_arith) requires 0 < n <= u64::MAX;
            assert(o * c == (q * c) * n + r * c) by (nonlinear_arith) requires o == n * q + r;
            vstd::arithmetic::div_mod::lemma_hoist_over_denominator(r * c, q * c, n as nat);
        }
        let part: u128 = r * (closed as u128) / total;
        proof {
            lemma_fundamental_div_mod(r * c, n);
            assert((r * c) / n * n <= r * c) by (nonlinear_arith)
                requires r * c == n * ((r * c) / n) + (r * c) % n, (r * c) % n >= 0;
            assert((r * c) / n <= r) by (nonlinear_arith)
                requires 0 <= c <= n, r >= 0, n > 0, (r * c) / n * n <= r * c;
            assert(q * c + r <= o) by (nonlinear_arith) requires o == n * q + r, 0 <= c <= n, q >= 0;
        }
        let frac_size: u128 = q * (closed as u128) + part;
        assert(frac_size as int == o * c / n);
        let tick: u128 = if tick_size > 0 { tick_size as u128 } else { DEFAULT_TICK as u128 };
        proof {
            lemma_floor_to_tick_bounds(frac_size as int, tick as int);
        }
        let s: u128 = frac_size / tick * tick;
        if s < tick {
            None
        } else {
            Some(s)
        }
    }
}


/// Floor-to-tick is monotone: a larger amount never rounds to a smaller size.
pub proof fn lemma_floor_to_tick_monotone(x: int, y: int, d: int)
    requires
        0 <= x <= y,
        d > 0,
    ensures
        floor_to_tick(x, d) <= floor_to_tick(y, d),
{
    vstd::arithmetic::div_mod::lemma_div_is_ordered(x, y, d);
    let a = x / d;
    let b = y / d;
    assert(a * d <= b * d) by (nonlinear_arith)
        requires a <= b, d > 0;
}

/// Law: every copy size that `compute_size` returns respects the exchange
/// minimum (its cost is at least the minimum bet), respects the per-trade cap
/// (its cost is at most the capped fraction of our balance), and is a whole,
/// non-zero number of ticks.
pub proof fn lemma_copy_size_within_limits(
    sizer: &Sizer,
    target_trade_size: u64,
    target_value: u64,
    our_balance: u64,
    price: u64,
    tick_size: u64,
)
    requires
        sizer.size_for(target_trade_size as int, target_value as int, our_balance as int,
            price as int, tick_size) is Some,
    ensures
        ({
            let s = sizer.size_for(target_trade_size as int, target_value as int,
                our_balance as int, price as int, tick_size)->0;
            let tick = effective_tick(tick_size);
            &&& s * price >= sizer.min_bet() * MICROS
            &&& s * price <= max_cost_scaled(our_balance as int, sizer.max_trade_bps() as int)
            &&& s % tick == 0
            &&& s >= tick
        }),
{
    let t = target_trade_size as int;
    let v = target_value as int;
    let b = our_balance as int;
    let p = price as int;
    let tick = effective_tick(tick_size);
    let bps = sizer.max_trade_bps() as int;
    assert(bps >= 0);
    let mc = max_cost_scaled(b, bps);
    assert(mc >= 0) by (nonlinear_arith) requires b >= 0, bps >= 0, mc == b * bps * 100;
    assert(t * b >= 0) by (nonlinear_arith) requires t >= 0, b >= 0;
    vstd::arithmetic::div_mod::lemma_div_pos_is_pos(t * b, v);
    vstd::arithmetic::div_mod::lemma_div_pos_is_pos(mc, p);
    let lower = min_int(proportional_size(t, v, b), capped_size(b, p, bps));
    lemma_floor_to_tick_bounds(lower, tick);
    let scaled = floor_to_tick(lower, tick);
    let need = sizer.min_bet() * MICROS;
    if scaled * p < need {
        let per = p * tick;
        assert(per >= 1) by (nonlinear_arith) requires p >= 1, tick >= 1, per == p * tick;
        let q = need / per;
        lemma_fundamental_div_mod(need, per);
        let k = if q * per < need { q + 1 } else { q };
        assert(k * per >= need) by (nonlinear_arith)
            requires
                need == per * q + need % per, 0 <= need % per < per,
                k == (if q * per < need { q + 1 } else { q });
        let m = k * tick;
        assert(m == min_bet_size(sizer.min_bet() as int, p, tick));
        assert(m * p == k * per) by (nonlinear_arith) requires m == k * tick, per == p * tick;
        vstd::arithmetic::div_mod::lemma_mod_multiples_basic(k, tick);
        assert(k * tick == tick * k) by (nonlinear_arith);
    } else {
        lemma_mul_le_iff_le_div(scaled, p, mc);
    }
}

/// Law: scaling is monotone in the target's trade size. If a trade of the
/// target is copied, a larger trade of the target (all else equal) is copied
/// too, with a size at least as large.
pub proof fn lemma_copy_size_monotone(
    sizer: &Sizer,
    smaller: u64,
    larger: u64,
    target_value: u64,
    our_balance: u64,
    price: u64,
    tick_size: u64,
)
    requires
        smaller <= larger,
        sizer.size_for(smaller as int, target_value as int, our_balance as int, price as int,
            tick_size) is Some,
    ensures
        sizer.size_for(larger as int, target_value as int, our_balance as int, price as int,
            tick_size) is Some,
        sizer.size_for(smaller as int, target_value as int, our_balance as int, price as int,
            tick_size)->0 <= sizer.size_for(larger as int, target_value as int, our_balance as int,
            price as int, tick_size)->0,
{
    let v = target_value as int;
    let b = our_balance as int;
    let p = price as int;
    let tick = effective_tick(tick_size);
    let bps = sizer.max_trade_bps() as int;
    let mc = max_cost_scaled(b, bps);
    assert(mc >= 0) by (nonlinear_arith) requires b >= 0, bps >= 0, mc == b * bps * 100;
    let t1 = smaller as int;
    let t2 = larger as int;
    assert(0 <= t1 * b <= t2 * b) by (nonlinear_arith) requires 0 <= t1 <= t2, b >= 0;
    vstd::arithmetic::div_mod::lemma_div_pos_is_pos(t1 * b, v);
    vstd::arithmetic::div_mod::lemma_div_is_ordered(t1 * b, t2 * b, v);
    vstd::arithmetic::div_mod::lemma_div_pos_is_pos(mc, p);
    let l1 = min_int(proportional_size(t1, v, b), capped_size(b, p, bps));
    let l2 = min_int(proportional_size(t2, v, b), capped_size(b, p, bps));
    lemma_floor_to_tick_monotone(l1, l2, tick);
    lemma_floor_to_tick_bounds(l1, tick);
    lemma_floor_to_tick_bounds(l2, tick);
    let s1 = floor_to_tick(l1, tick);
    let s2 = floor_to_tick(l2, tick);
    let need = sizer.min_bet() * MICROS;
    assert(s1 * p <= s2 * p) by (nonlinear_arith) requires s1 <= s2, p >= 0;
    if s1 * p < need && s2 * p >= need {
        // the bumped size of the smaller trade is the least multiple of the tick
        // reaching the minimum; the larger trade's size is such a multiple
        let per = p * tick;
        assert(per >= 1) by (nonlinear_arith) requires p >= 1, tick >= 1, per == p * tick;
        let q = need / per;
        lemma_fundamental_div_mod(need, per);
        let k = if q * per < need { q + 1 } else { q };
        let j = l2 / tick;
        assert(s2 == j * tick);
        assert(s2 * p == j * per) by (nonlinear_arith) requires s2 == j * tick, per == p * tick;
        assert(j >= k) by (nonlinear_arith)
            requires
                j * per >= need, need == per * q + need % per, 0 <= need % per < per, per >= 1,
                k == (if q * per < need { q + 1 } else { q });
        assert(j * tick >= k * tick) by (nonlinear_arith) requires j >= k, tick >= 1;
        assert(k * tick == min_bet_size(sizer.min_bet() as int, p, tick));
    }
}

/// Law: a partial close never closes more than we hold, and is a whole,
/// non-zero number of ticks.
pub proof fn lemma_close_size_within_position(
    target_closed_size: u64,
    target_total_before: u64,
    our_position_size: u128,
    tick_size: u64,
)
    requires
        Sizer::close_size_for(target_closed_size as int, target_total_before as int,
            our_position_size as int, tick_size) is Some,
    ensures
        ({
            let s = Sizer::close_size_for(target_closed_size as int, target_total_before as int,
                our_position_size as int, tick_size)->0;
            &&& s <= our_position_size
            &&& s % effective_tick(tick_size) == 0
            &&& s >= effective_tick(tick_size)
        }),
{
    let o = our_position_size as int;
    let n = target_total_before as int;
    let c = min_int(target_closed_size as int, n);
    let tick = effective_tick(tick_size);
    assert(0 <= o * c <= o * n) by (nonlinear_arith) requires o >= 0, 0 <= c <= n;
    vstd::arithmetic::div_mod::lemma_div_pos_is_pos(o * c, n);
    vstd::arithmetic::div_mod::lemma_div_is_ordered(o * c, o * n, n);
    assert((o * n) / n == o) by {
        vstd::arithmetic::div_mod::lemma_div_multiples_vanish(o, n);
        assert(o * n == n * o) by (nonlinear_arith);
    }
    lemma_floor_to_tick_bounds(o * c / n, tick);
}

/// Law: when the target closes its whole position (or more), we close our
/// whole position, rounded down to the tick size.
pub proof fn lemma_full_target_close_closes_ours(
    target_closed_size: u64,
    target_total_before: u64,
    our_position_size: u128,
    tick_size: u64,
)
    requires
        target_total_before > 0,
        target_closed_size >= target_total_before,
        our_position_size >= effective_tick(tick_size),
    ensures
        Sizer::close_size_for(target_closed_size as int, target_total_before as int,
            our_position_size as int, tick_size)
            == Some(floor_to_tick(our_position_size as int, effective_tick(tick_size))),
{
    let o = our_position_size as int;
    let n = target_total_before as int;
    assert((o * n) / n == o) by {
        vstd::arithmetic::div_mod::lemma_div_multiples_vanish(o, n);
        assert(o * n == n * o) by (nonlinear_arith);
    }
    lemma_floor_to_tick_bounds(o, effective_tick(tick_size));
}

/// Law: a copy trade is the target's trade scaled by our balance over the
/// target's value, `target_trade_size * our_balance / target_value`, rounded
/// down to the tick, for every ratio (above one as well as below), whenever
/// that size is neither cut by the per-trade cap nor raised to the minimum
/// bet: its cost is at least the minimum bet and at most the capped share of
/// our balance.
pub proof fn lemma_copy_size_is_proportional(
    sizer: Sizer,
    target_trade_size: u64,
    target_value: u64,
    our_balance: u64,
    price: u64,
    tick_size: u64,
)
    requires
        sizer.min_bet() >= MICROS,
        target_value > 0,
        our_balance > 0,
        price > 0,
        ({
            let tick: int = if tick_size > 0 { tick_size as int } else { DEFAULT_TICK as int };
            let s = (target_trade_size * our_balance / (target_value as int)) / tick * tick;
            &&& s * price >= sizer.min_bet() * MICROS
            &&& s * price <= our_balance * sizer.max_trade_bps() * (MICROS / BPS_ONE)
        }),
    ensures
        ({
            let tick: int = if tick_size > 0 { tick_size as int } else { DEFAULT_TICK as int };
            sizer.size_for(target_trade_size as int, target_value as int, our_balance as int,
                price as int, tick_size) == Some((target_trade_size * our_balance / (target_value as int)) / tick * tick)
        }),
{
    let t = target_trade_size as int;
    let v = target_value as int;
    let b = our_balance as int;
    let p = price as int;
    let tick = effective_tick(tick_size);
    let bps = sizer.max_trade_bps() as int;
    let prop = proportional_size(t, v, b);
    let maxc = max_cost_scaled(b, bps);
    let cap = capped_size(b, p, bps);
    let sz = floor_to_tick(prop, tick);
    assert(t * b >= 0) by (nonlinear_arith) requires t >= 0, b >= 0;
    vstd::arithmetic::div_mod::lemma_div_pos_is_pos(t * b, v);
    assert(maxc >= 0) by (nonlinear_arith) requires b >= 0, bps >= 0, maxc == b * bps * 100;
    vstd::arithmetic::div_mod::lemma_div_pos_is_pos(maxc, p);
    lemma_floor_to_tick_bounds(prop, tick);
    lemma_mul_le_iff_le_div(sz, p, maxc);
    if prop > cap {
        lemma_floor_to_tick_monotone(cap, prop, tick);
        lemma_floor_to_tick_monotone(sz, cap, tick);
        let q = prop / tick;
        assert(sz == q * tick);
        assert(q * tick == tick * q) by (nonlinear_arith);
        vstd::arithmetic::div_mod::lemma_div_multiples_vanish(q, tick);
        assert(floor_to_tick(sz, tick) == sz);
    }
    assert(sz > 0) by {
        if sz <= 0 {
            assert(sz * p <= 0) by (nonlinear_arith) requires sz <= 0, p > 0;
        }
    }
}

/// Law: when the target closes part of its position, we close the same
/// fraction of ours: `our_position_size * closed / target_total_before`,
/// the closed size taken at most at the whole, rounded down to the tick;
/// a close of at least one tick is made for every fraction, and none below.
pub proof fn lemma_close_size_is_proportional(
    target_closed_size: u64,
    target_total_before: u64,
    our_position_size: u128,
    tick_size: u64,
)
    requires
        target_total_before > 0,
        our_position_size > 0,
    ensures
        ({
            let tick: int = if tick_size > 0 { tick_size as int } else { DEFAULT_TICK as int };
            let closed: int = if target_closed_size <= target_total_before { target_closed_size as int }
                else { target_total_before as int };
            let s = (our_position_size * closed / (target_total_before as int)) / tick * tick;
            &&& s >= tick ==> Sizer::close_size_for(target_closed_size as int, target_total_before as int,
                our_position_size as int, tick_size) == Some(s)
            &&& s < tick ==> Sizer::close_size_for(target_closed_size as int, target_total_before as int,
                our_position_size as int, tick_size) is None
        }),
{
}

} // verus!
