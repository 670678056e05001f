use copymet::config::{Config, ConfigError, EnvVars};

fn vars() -> EnvVars {
    EnvVars {
        api_key: Some(String::from("key")),
        api_secret: Some(String::from("c2VjcmV0")),
        api_passphrase: Some(String::from("pass")),
        private_key: None,
        funder_address: Some(String::from("0xFunder")),
        target_wallet: Some(String::from("0xTarget")),
        poll_interval_ms: None,
        min_bet_size: None,
        max_slippage_bps: None,
        dry_run: None,
        initial_balance: None,
    }
}

fn missing(r: Result<Config, ConfigError>) -> String {
    match r {
        Ok(_) => panic!("expected a missing variable"),
        Err(e) => e.missing,
    }
}

#[test]
fn defaults_apply() {
    let c = Config::from_vars(vars()).ok().unwrap();
    assert_eq!(c.api_key, "key");
    assert_eq!(c.api_secret, "c2VjcmV0");
    assert_eq!(c.api_passphrase, "pass");
    assert_eq!(c.private_key, "");
    assert_eq!(c.funder_address, "0xFunder");
    assert_eq!(c.target_wallet, "0xTarget");
    assert_eq!(c.poll_interval_ms, 500);
    assert_eq!(c.min_bet_size, 1_000_000);
    assert_eq!(c.max_slippage_bps, 50);
    assert!(!c.dry_run);
    assert_eq!(c.initial_balance, None);
    assert_eq!(c.clob_api_url, "https://clob.polymarket.com");
    assert_eq!(c.gamma_api_url, "https://data-api.polymarket.com");
}

#[test]
fn values_are_read() {
    let mut v = vars();
    v.private_key = Some(String::from("0xpk"));
    v.poll_interval_ms = Some(String::from("250"));
    v.min_bet_size = Some(String::from("2.5"));
    v.max_slippage_bps = Some(String::from("100"));
    v.dry_run = Some(String::from("true"));
    v.initial_balance = Some(String::from("123.45"));
    let c = Config::from_vars(v).ok().unwrap();
    assert_eq!(c.private_key, "0xpk");
    assert_eq!(c.poll_interval_ms, 250);
    assert_eq!(c.min_bet_size, 2_500_000);
    assert_eq!(c.max_slippage_bps, 100);
    assert!(c.dry_run);
    assert_eq!(c.initial_balance, Some(123_450_000));
}

#[test]
fn unreadable_values_fall_back() {
    let mut v = vars();
    v.poll_interval_ms = Some(String::from("fast"));
    v.min_bet_size = Some(String::from("one"));
    v.max_slippage_bps = Some(String::from("-3"));
    v.dry_run = Some(String::from("yes"));
    v.initial_balance = Some(String::from("lots"));
    let c = Config::from_vars(v).ok().unwrap();
    assert_eq!(c.poll_interval_ms, 500);
    assert_eq!(c.min_bet_size, 1_000_000);
    assert_eq!(c.max_slippage_bps, 50);
    assert!(!c.dry_run);
    assert_eq!(c.initial_balance, None);
}

#[test]
fn each_required_variable_is_reported() {
    let mut v = vars();
    v.api_key = None;
    assert_eq!(missing(Config::from_vars(v)), "POLYMARKET_API_KEY");
    let mut v = vars();
    v.api_secret = None;
    assert_eq!(missing(Config::from_vars(v)), "POLYMARKET_API_SECRET");
    let mut v = vars();
    v.api_passphrase = None;
    assert_eq!(missing(Config::from_vars(v)), "POLYMARKET_API_PASSPHRASE");
    let mut v = vars();
    v.funder_address = None;
    assert_eq!(missing(Config::from_vars(v)), "POLYMARKET_FUNDER_ADDRESS");
    let mut v = vars();
    v.target_wallet = None;
    assert_eq!(missing(Config::from_vars(v)), "TARGET_WALLET_ADDRESS");
}

#[test]
fn first_missing_variable_is_reported() {
    let mut v = vars();
    v.target_wallet = None;
    v.api_secret = None;
    assert_eq!(missing(Config::from_vars(v)), "POLYMARKET_API_SECRET");
}
