use copymet::config::Config;
use copymet::executor::{fallback_price_for, sizing_inputs, DeltaBatch, Executor, TradeKind, TradePlan};
use copymet::monitor::PositionDelta;
use copymet::types::{OrderBookLevel, OrderBookResponse, OrderResponse, OrderType, Position, Side};

fn config(dry_run: bool) -> Config {
    Config {
        api_key: String::from("key"),
        api_secret: String::from("a2V5"),
        api_passphrase: String::from("pass"),
        private_key: String::new(),
        funder_address: String::from("0xFunder"),
        target_wallet: String::from("0xTarget"),
        poll_interval_ms: 500,
        min_bet_size: 1_000_000,
        max_slippage_bps: 50,
        dry_run,
        initial_balance: None,
        clob_api_url: String::from("https://clob.polymarket.com"),
        gamma_api_url: String::from("https://data-api.polymarket.com"),
    }
}

fn pos(asset: Option<&str>, size: Option<u64>, side: Option<&str>) -> Position {
    Position {
        asset: asset.map(String::from),
        condition_id: None,
        size,
        avg_price: None,
        side: side.map(String::from),
        market: None,
        outcome: None,
        cur_price: None,
        cash_pnl: None,
        percent_pnl: None,
        proxy_wallet: None,
        current_value: None,
        redeemable: None,
        title: None,
    }
}

fn book(asks: &[&str], bids: &[&str]) -> OrderBookResponse {
    let lv = |p: &&str| OrderBookLevel { price: p.to_string(), size: String::from("10") };
    OrderBookResponse {
        market: None,
        asset_id: None,
        bids: Some(bids.iter().map(lv).collect()),
        asks: Some(asks.iter().map(lv).collect()),
    }
}

fn filled(ok: Option<bool>) -> OrderResponse {
    OrderResponse { success: ok, order_id: Some(String::from("o1")), status: None, error_msg: None }
}

fn tok(s: &str) -> String {
    String::from(s)
}

#[test]
fn new_executor_tracks_nothing() {
    let e = Executor::new(config(false));
    assert_eq!(e.held_count(), 0);
    assert_eq!(e.held(&tok("A")), None);
}

#[test]
fn sync_keeps_nonzero_positions_last_report_wins() {
    let mut e = Executor::new(config(false));
    e.sync_positions(&[
        pos(Some("A"), Some(4_000_000), Some("SELL")),
        pos(Some("B"), Some(0), None),
        pos(None, Some(3_000_000), None),
        pos(Some("C"), None, None),
        pos(Some("A"), Some(6_000_000), Some("buy")),
        pos(Some("D"), Some(1_000_000), Some("sell")),
    ]);
    assert_eq!(e.held_count(), 2);
    assert_eq!(e.held(&tok("A")), Some((6_000_000, Side::Buy)));
    assert_eq!(e.held(&tok("D")), Some((1_000_000, Side::Sell)));
    // a second sync replaces everything
    e.sync_positions(&[pos(Some("E"), Some(2_000_000), None)]);
    assert_eq!(e.held_count(), 1);
    assert_eq!(e.held(&tok("A")), None);
}

#[test]
fn plan_for_opened_position() {
    let e = Executor::new(config(false));
    let d = PositionDelta::Opened { token_id: tok("A"), condition_id: tok("c"), size: 1_000_000_000, side: Side::Buy, price: 400_000 };
    let p = e.plan(&d, 100_000_000, 5_000_000_000).unwrap();
    assert_eq!(p.kind, TradeKind::Open);
    assert_eq!(p.token_id, "A");
    assert_eq!(p.side, Side::Buy);
    assert_eq!(p.size, 20_000_000);
    assert_eq!(p.reference_price, Some(400_000));
}

#[test]
fn plan_for_increase_uses_added_size() {
    let e = Executor::new(config(false));
    let d = PositionDelta::Increased { token_id: tok("A"), condition_id: tok("c"), added_size: 500_000_000, new_total: 1_500_000_000, side: Side::Sell, price: 400_000 };
    let p = e.plan(&d, 100_000_000, 5_000_000_000).unwrap();
    assert_eq!((p.kind, p.side, p.size), (TradeKind::Open, Side::Sell, 10_000_000));
}

#[test]
fn plan_skips_unaffordable_open() {
    let e = Executor::new(config(false));
    let d = PositionDelta::Opened { token_id: tok("A"), condition_id: tok("c"), size: 1_000_000, side: Side::Buy, price: 500_000 };
    assert!(e.plan(&d, 2_000_000, 1_000_000_000).is_none());
}

#[test]
fn plan_for_decrease_closes_same_fraction_on_opposite_side() {
    let mut e = Executor::new(config(false));
    e.sync_positions(&[pos(Some("A"), Some(10_000_000), Some("BUY"))]);
    let d = PositionDelta::Decreased { token_id: tok("A"), condition_id: tok("c"), removed_size: 4_000_000, new_total: 6_000_000, side: Side::Buy, price: 450_000 };
    let p = e.plan(&d, 0, 1_000_000).unwrap();
    assert_eq!((p.kind, p.side, p.size, p.reference_price), (TradeKind::Close, Side::Sell, 4_000_000, Some(450_000)));
}

#[test]
fn plan_for_decrease_without_holding_is_none() {
    let e = Executor::new(config(false));
    let d = PositionDelta::Decreased { token_id: tok("A"), condition_id: tok("c"), removed_size: 4_000_000, new_total: 6_000_000, side: Side::Buy, price: 450_000 };
    assert!(e.plan(&d, 0, 1_000_000).is_none());
}

#[test]
fn plan_for_close_sells_everything() {
    let mut e = Executor::new(config(false));
    e.sync_positions(&[pos(Some("A"), Some(7_000_000), Some("SELL"))]);
    let d = PositionDelta::Closed { token_id: tok("A"), condition_id: tok("c"), old_size: 1, side: Side::Sell };
    let p = e.plan(&d, 0, 1_000_000).unwrap();
    assert_eq!((p.kind, p.side, p.size, p.reference_price), (TradeKind::FullClose, Side::Buy, 7_000_000, None));
    let other = PositionDelta::Closed { token_id: tok("B"), condition_id: tok("c"), old_size: 1, side: Side::Sell };
    assert!(e.plan(&other, 0, 1_000_000).is_none());
}

#[test]
fn execution_price_with_slippage() {
    let e = Executor::new(config(false));
    let b = book(&["0.55", "0.60"], &["0.45", "0.40"]);
    // 0.55 * 1.005 = 0.55275 -> 0.55 ; 0.45 * 0.995 = 0.44775 -> 0.45
    assert_eq!(e.execution_price(Some(&b), Side::Buy, 100_000), 550_000);
    assert_eq!(e.execution_price(Some(&b), Side::Sell, 100_000), 450_000);
}

#[test]
fn execution_price_caps_and_floors() {
    let e = Executor::new(config(false));
    let b = book(&["0.99"], &["0.005"]);
    assert_eq!(e.execution_price(Some(&b), Side::Buy, 0), 990_000);
    assert_eq!(e.execution_price(Some(&b), Side::Sell, 0), 10_000);
}

#[test]
fn execution_price_falls_back() {
    let e = Executor::new(config(false));
    // no book: 0.6 * 1.005 = 0.603 -> 0.60
    assert_eq!(e.execution_price(None, Side::Buy, 600_000), 600_000);
    // unreadable or missing levels
    let b = book(&["abc"], &[]);
    assert_eq!(e.execution_price(Some(&b), Side::Buy, 700_000), 700_000);
    assert_eq!(e.execution_price(Some(&b), Side::Sell, 700_000), 700_000);
}

#[test]
fn execution_price_rounds_half_up() {
    let mut c = config(false);
    c.max_slippage_bps = 100;
    let e = Executor::new(c);
    // 0.5 * 1.01 = 0.505 -> 0.51
    assert_eq!(e.execution_price(None, Side::Buy, 500_000), 510_000);
    let mut c = config(false);
    c.max_slippage_bps = 10_000;
    let e = Executor::new(c);
    assert_eq!(e.execution_price(None, Side::Sell, 500_000), 10_000);
}

#[test]
fn order_is_fill_or_kill_unless_dry_run() {
    let e = Executor::new(config(false));
    let d = PositionDelta::Opened { token_id: tok("A"), condition_id: tok("c"), size: 1_000_000_000, side: Side::Buy, price: 400_000 };
    let p = e.plan(&d, 100_000_000, 5_000_000_000).unwrap();
    let o = e.order_for(&p, 410_000).unwrap();
    assert_eq!((o.token_id.as_str(), o.price, o.size, o.side, o.order_type, o.funder.as_str()),
        ("A", 410_000, 20_000_000, Side::Buy, OrderType::Fok, "0xFunder"));
    let dry = Executor::new(config(true));
    assert!(dry.order_for(&p, 410_000).is_none());
}

#[test]
fn fills_update_holdings() {
    let mut e = Executor::new(config(false));
    let open = PositionDelta::Opened { token_id: tok("A"), condition_id: tok("c"), size: 1_000_000_000, side: Side::Buy, price: 400_000 };
    let p = e.plan(&open, 100_000_000, 5_000_000_000).unwrap();
    e.record_fill(&p, &filled(Some(false)));
    e.record_fill(&p, &filled(None));
    assert_eq!(e.held(&tok("A")), None);
    e.record_fill(&p, &filled(Some(true)));
    assert_eq!(e.held(&tok("A")), Some((20_000_000, Side::Buy)));
    e.record_fill(&p, &filled(Some(true)));
    assert_eq!(e.held(&tok("A")), Some((40_000_000, Side::Buy)));
    // partial close of 25%
    let dec = PositionDelta::Decreased { token_id: tok("A"), condition_id: tok("c"), removed_size: 1_000_000, new_total: 3_000_000, side: Side::Buy, price: 400_000 };
    let c = e.plan(&dec, 0, 1_000_000).unwrap();
    assert_eq!(c.size, 10_000_000);
    e.record_fill(&c, &filled(Some(true)));
    assert_eq!(e.held(&tok("A")), Some((30_000_000, Side::Buy)));
    // full close
    let close = PositionDelta::Closed { token_id: tok("A"), condition_id: tok("c"), old_size: 4_000_000, side: Side::Buy };
    let f = e.plan(&close, 0, 1_000_000).unwrap();
    e.record_fill(&f, &filled(Some(true)));
    assert_eq!(e.held(&tok("A")), None);
    assert_eq!(e.held_count(), 0);
}

#[test]
fn partial_close_leaving_dust_drops_position() {
    let mut e = Executor::new(config(false));
    e.sync_positions(&[pos(Some("A"), Some(1_005_000), Some("BUY"))]);
    let dec = PositionDelta::Decreased { token_id: tok("A"), condition_id: tok("c"), removed_size: 10_000_000, new_total: 0, side: Side::Buy, price: 400_000 };
    let c = e.plan(&dec, 0, 1_000_000).unwrap();
    assert_eq!(c.size, 1_000_000);
    e.record_fill(&c, &filled(Some(true)));
    assert_eq!(e.held(&tok("A")), None);
}

#[test]
fn more_slippage_never_improves_price() {
    let mut last_buy = 0u128;
    let mut last_sell = u128::MAX;
    for bps in [0u64, 10, 50, 200, 1_000, 9_999, 10_000, 50_000] {
        let mut c = config(false);
        c.max_slippage_bps = bps;
        let e = Executor::new(c);
        let b = book(&["0.42"], &["0.41"]);
        let buy = e.execution_price(Some(&b), Side::Buy, 0);
        let sell = e.execution_price(Some(&b), Side::Sell, 0);
        assert!(buy >= last_buy && buy <= 990_000 && buy % 10_000 == 0);
        assert!(sell <= last_sell && sell >= 10_000 && sell % 10_000 == 0);
        last_buy = buy;
        last_sell = sell;
    }
}

#[test]
fn sync_agrees_with_monitor_snapshot() {
    let ps = vec![
        pos(Some("A"), Some(4_000_000), Some("SELL")),
        pos(Some("B"), Some(2_000_000), None),
        pos(Some("A"), Some(5_000_000), Some("Sell")),
        pos(Some("B"), Some(0), Some("SELL")),
    ];
    let mut e = Executor::new(config(false));
    e.sync_positions(&ps);
    let mut m = copymet::monitor::WalletMonitor::new(String::from("me"));
    let deltas = m.poll_positions(&ps);
    assert_eq!(deltas.len(), e.held_count());
    for d in &deltas {
        match d {
            PositionDelta::Opened { token_id, size, side, .. } => {
                assert_eq!(e.held(token_id), Some((*size as u128, *side)));
            }
            _ => panic!("first poll only opens"),
        }
    }
}

#[test]
fn open_fill_on_new_token_takes_copied_side() {
    let mut e = Executor::new(config(false));
    let d = PositionDelta::Opened { token_id: tok("S"), condition_id: tok("c"), size: 1_000_000_000, side: Side::Sell, price: 400_000 };
    let p = e.plan(&d, 100_000_000, 5_000_000_000).unwrap();
    e.record_fill(&p, &filled(Some(true)));
    assert_eq!(e.held(&tok("S")), Some((20_000_000, Side::Sell)));
}

#[test]
fn sizing_inputs_default_failed_fetches() {
    assert_eq!(sizing_inputs(Some(5_000_000), Some(9_000_000)), (5_000_000, 9_000_000));
    assert_eq!(sizing_inputs(None, Some(9_000_000)), (0, 9_000_000));
    assert_eq!(sizing_inputs(Some(5_000_000), None), (5_000_000, 1_000_000));
    assert_eq!(sizing_inputs(None, None), (0, 1_000_000));
}

#[test]
fn fallback_price_prefers_plan_then_midpoint() {
    let plan = |r: Option<u64>| TradePlan { kind: TradeKind::Open, token_id: tok("A"), side: Side::Buy, size: 1_000_000, reference_price: r };
    assert_eq!(fallback_price_for(&plan(Some(420_000)), Some(610_000)), 420_000);
    assert_eq!(fallback_price_for(&plan(None), Some(610_000)), 610_000);
    assert_eq!(fallback_price_for(&plan(None), None), 500_000);
}

#[test]
fn batch_moves_past_failures() {
    let d = |t: &str| PositionDelta::Closed { token_id: tok(t), condition_id: tok("c"), old_size: 1_000_000, side: Side::Buy };
    let mut b = DeltaBatch::new(vec![d("A"), d("B"), d("C")]);
    assert!(!b.is_empty());
    let mut seen = Vec::new();
    let outcomes = [false, true, false];
    let mut k = 0;
    while let Some(x) = b.next_delta() {
        if let PositionDelta::Closed { token_id, .. } = x {
            seen.push(token_id.clone());
        }
        b.record_outcome(outcomes[k]);
        k += 1;
    }
    assert_eq!(seen, vec!["A", "B", "C"]);
    assert_eq!(b.failures(), 2);
    assert!(b.next_delta().is_none());
    assert!(DeltaBatch::new(vec![]).is_empty());
}
