use copymet::client::{
    active_positions, balance_fallback, balance_from_allowance, balance_from_positions, clob_request,
    estimate_wallet_value, limit_order_request, market_order_request, market_url, midpoint_from_field,
    midpoint_url, order_book_url, resolve_balance, server_time_url, spread_url, wallet_activity_url,
    wallet_positions_url,
};
use copymet::config::Config;
use copymet::types::{BalanceAllowance, OrderType, Position, Side};

fn config() -> Config {
    Config {
        api_key: String::from("k1"),
        api_secret: String::from("a2V5"),
        api_passphrase: String::from("pp"),
        private_key: String::new(),
        funder_address: String::from("0xFunder"),
        target_wallet: String::from("0xTarget"),
        poll_interval_ms: 500,
        min_bet_size: 1_000_000,
        max_slippage_bps: 50,
        dry_run: false,
        initial_balance: Some(42_000_000),
        clob_api_url: String::from("https://clob.polymarket.com"),
        gamma_api_url: String::from("https://data-api.polymarket.com"),
    }
}

fn pos(size: Option<u64>, cur: Option<u64>, avg: Option<u64>, value: Option<u64>, redeemable: Option<bool>, asset: &str) -> Position {
    Position {
        asset: Some(String::from(asset)),
        condition_id: None,
        size,
        avg_price: avg,
        side: None,
        market: None,
        outcome: None,
        cur_price: cur,
        cash_pnl: None,
        percent_pnl: None,
        proxy_wallet: None,
        current_value: value,
        redeemable,
        title: None,
    }
}

#[test]
fn endpoint_urls() {
    let c = config();
    assert_eq!(server_time_url(&c), "https://clob.polymarket.com/time");
    assert_eq!(order_book_url(&c, "123"), "https://clob.polymarket.com/book?token_id=123");
    assert_eq!(market_url(&c, "0xc"), "https://clob.polymarket.com/markets/0xc");
    assert_eq!(midpoint_url(&c, "123"), "https://clob.polymarket.com/midpoint?token_id=123");
    assert_eq!(spread_url(&c, "123"), "https://clob.polymarket.com/spread?token_id=123");
    assert_eq!(wallet_activity_url(&c, "0xw", 25), "https://data-api.polymarket.com/activity?user=0xw&limit=25");
    assert_eq!(wallet_positions_url(&c, "0xw"), "https://data-api.polymarket.com/positions?user=0xw&sizeThreshold=0&limit=500");
}

#[test]
fn clob_request_is_signed() {
    let c = config();
    let r = clob_request(&c, "GET", "/orders?state=LIVE", None).unwrap();
    assert_eq!(r.method, "GET");
    assert_eq!(r.url, "https://clob.polymarket.com/orders?state=LIVE");
    assert_eq!(r.body, "");
    assert_eq!(r.headers.len(), 4);
    assert_eq!(r.headers[0], (String::from("POLY_HMAC_KEY"), String::from("k1")));
    assert_eq!(r.headers[3], (String::from("POLY_HMAC_PASSPHRASE"), String::from("pp")));
    let ts: i64 = r.headers[2].1.parse().unwrap();
    let again = copymet::auth::build_hmac_headers_at("k1", "a2V5", "pp", "GET", "/orders?state=LIVE", "", ts).unwrap();
    assert_eq!(again, r.headers);
    let p = clob_request(&c, "POST", "/order", Some("{}")).unwrap();
    assert_eq!(p.body, "{}");
}

#[test]
fn clob_request_with_bad_secret_fails() {
    let mut c = config();
    c.api_secret = String::from("%%%");
    assert!(clob_request(&c, "GET", "/orders", None).is_err());
}

#[test]
fn orders_are_built() {
    let o = market_order_request(&String::from("T"), Side::Sell, 3_000_000, 450_000, &String::from("0xF"));
    assert_eq!((o.token_id.as_str(), o.side, o.size, o.price, o.order_type, o.funder.as_str()),
        ("T", Side::Sell, 3_000_000, 450_000, OrderType::Fok, "0xF"));
    let l = limit_order_request(&String::from("T"), Side::Buy, 1_000_000, 330_000, &String::from("0xF"));
    assert_eq!((l.side, l.size, l.price, l.order_type), (Side::Buy, 1_000_000, 330_000, OrderType::Gtc));
}

#[test]
fn balance_from_clob_answer() {
    let ba = |b: Option<&str>| BalanceAllowance { balance: b.map(String::from), allowance: None };
    assert_eq!(balance_from_allowance(&ba(Some("12.5"))), Some(12_500_000));
    assert_eq!(balance_from_allowance(&ba(Some("0"))), None);
    assert_eq!(balance_from_allowance(&ba(Some("oops"))), None);
    assert_eq!(balance_from_allowance(&ba(None)), None);
}

#[test]
fn balance_from_position_values() {
    let ps = vec![pos(None, None, None, Some(3_000_000), None, "a"), pos(None, None, None, None, None, "b"), pos(None, None, None, Some(500_000), None, "c")];
    assert_eq!(balance_from_positions(&ps), Some(3_500_000));
    assert_eq!(balance_from_positions(&[pos(None, None, None, Some(10_000), None, "a")]), None);
    assert_eq!(balance_from_positions(&[]), None);
    let big = vec![pos(None, None, None, Some(u64::MAX), None, "a"), pos(None, None, None, Some(5), None, "b")];
    assert_eq!(balance_from_positions(&big), Some(u64::MAX));
}

#[test]
fn balance_last_resort() {
    let mut c = config();
    assert_eq!(balance_fallback(&c), 42_000_000);
    c.initial_balance = Some(0);
    assert_eq!(balance_fallback(&c), 0);
    c.initial_balance = None;
    assert_eq!(balance_fallback(&c), 0);
}

#[test]
fn balance_sources_in_order() {
    let c = config();
    let ba = |b: &str| BalanceAllowance { balance: Some(String::from(b)), allowance: None };
    let ps = vec![pos(None, None, None, Some(3_000_000), None, "a")];
    // a positive balance-allowance answer wins
    assert_eq!(resolve_balance(Some(&ba("12.5")), Some(&ps), &c), 12_500_000);
    assert_eq!(resolve_balance(Some(&ba("12.5")), None, &c), 12_500_000);
    // a zero or failed answer passes to the value of our positions
    assert_eq!(resolve_balance(Some(&ba("0")), Some(&ps), &c), 3_000_000);
    assert_eq!(resolve_balance(None, Some(&ps), &c), 3_000_000);
    // positions worth 0.01 USDC or less, or not fetched, pass to INITIAL_BALANCE
    let dust = vec![pos(None, None, None, Some(10_000), None, "a")];
    assert_eq!(resolve_balance(None, Some(&dust), &c), 42_000_000);
    assert_eq!(resolve_balance(Some(&ba("0")), None, &c), 42_000_000);
    // all sources missing
    let mut c2 = config();
    c2.initial_balance = None;
    assert_eq!(resolve_balance(None, None, &c2), 0);
}

#[test]
fn redeemable_positions_are_filtered() {
    let ps = vec![
        pos(Some(1), None, None, None, Some(true), "a"),
        pos(Some(2), None, None, None, None, "b"),
        pos(Some(3), None, None, None, Some(false), "c"),
        pos(Some(4), None, None, None, Some(true), "d"),
        pos(Some(5), None, None, None, None, "e"),
    ];
    let kept: Vec<String> = active_positions(ps).into_iter().map(|p| p.asset.unwrap()).collect();
    assert_eq!(kept, vec!["b", "c", "e"]);
    assert!(active_positions(vec![]).is_empty());
}

#[test]
fn wallet_value_estimate() {
    // 10 shares at 0.4 and 5 shares at (avg) 0.3 and 2 shares without price (0.5): 4 + 1.5 + 1
    let ps = vec![
        pos(Some(10_000_000), Some(400_000), Some(100_000), None, None, "a"),
        pos(Some(5_000_000), None, Some(300_000), None, None, "b"),
        pos(Some(2_000_000), None, None, None, None, "c"),
        pos(None, Some(900_000), None, None, None, "d"),
    ];
    assert_eq!(estimate_wallet_value(&ps, 0), 6_500_000);
    // plus 2 USDC idle
    assert_eq!(estimate_wallet_value(&ps, 2_000_000), 8_500_000);
}

#[test]
fn wallet_value_counts_idle_usdc() {
    assert_eq!(estimate_wallet_value(&[], 7_250_000), 7_250_000);
    assert_eq!(estimate_wallet_value(&[], 400_000), 1_000_000);
    assert_eq!(estimate_wallet_value(&[pos(Some(1_000_000), Some(500_000), None, None, None, "a")], 700_000), 1_200_000);
    assert_eq!(estimate_wallet_value(&[pos(Some(2_000_000), Some(1_000_000), None, None, None, "a")], u64::MAX), u64::MAX);
}

#[test]
fn wallet_value_floor_and_cap() {
    assert_eq!(estimate_wallet_value(&[], 0), 1_000_000);
    assert_eq!(estimate_wallet_value(&[pos(Some(1_000_000), Some(500_000), None, None, None, "a")], 0), 1_000_000);
    let huge = vec![pos(Some(u64::MAX), Some(u64::MAX), None, None, None, "a"), pos(Some(u64::MAX), Some(u64::MAX), None, None, None, "b")];
    assert_eq!(estimate_wallet_value(&huge, 0), u64::MAX);
}

#[test]
fn midpoint_field() {
    assert_eq!(midpoint_from_field(Some("0.535")), 535_000);
    assert_eq!(midpoint_from_field(Some("n/a")), 0);
    assert_eq!(midpoint_from_field(None), 0);
}
