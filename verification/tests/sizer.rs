use copymet::config::Config;
use copymet::sizer::Sizer;

fn config_with_min_bet(min_bet: u64) -> Config {
    Config {
        api_key: String::from("key"),
        api_secret: String::from("a2V5"),
        api_passphrase: String::from("pass"),
        private_key: String::new(),
        funder_address: String::from("0xFunder"),
        target_wallet: String::from("0xTarget"),
        poll_interval_ms: 500,
        min_bet_size: min_bet,
        max_slippage_bps: 50,
        dry_run: false,
        initial_balance: None,
        clob_api_url: String::from("https://clob.polymarket.com"),
        gamma_api_url: String::from("https://data-api.polymarket.com"),
    }
}

fn sizer() -> Sizer {
    Sizer::new(&config_with_min_bet(1_000_000))
}

#[test]
fn proportional_size_scales_by_balance_ratio() {
    // 10 shares, target worth 100, we hold 50, price 0.5: half of 10 shares
    assert_eq!(sizer().compute_size(10_000_000, 100_000_000, 50_000_000, 500_000, 0), Some(5_000_000));
}

#[test]
fn readme_ratio_example() {
    // target 5000 USDC, we 100 USDC: ratio 0.02; 1000 shares at 0.4 -> 20 shares
    assert_eq!(sizer().compute_size(1_000_000_000, 5_000_000_000, 100_000_000, 400_000, 10_000), Some(20_000_000));
}

#[test]
fn size_capped_at_quarter_of_balance() {
    // 100 shares at 0.5 would cost 50 > 25 (25% of 100): cap at 50 shares
    assert_eq!(sizer().compute_size(1_000_000_000, 1_000_000_000, 100_000_000, 500_000, 0), Some(50_000_000));
}

#[test]
fn small_size_bumped_to_minimum_bet() {
    // 0.1 share costs 0.05 < 1: bump to 2 shares (cost 1)
    assert_eq!(sizer().compute_size(1_000_000, 1_000_000_000, 100_000_000, 500_000, 0), Some(2_000_000));
}

#[test]
fn unaffordable_minimum_gives_none() {
    // balance 2: the cap is 0.5, the minimum bet of 1 is not affordable
    assert_eq!(sizer().compute_size(1_000_000, 1_000_000_000, 2_000_000, 500_000, 0), None);
}

#[test]
fn zero_inputs_give_none() {
    let s = sizer();
    assert_eq!(s.compute_size(1_000_000, 0, 2_000_000, 500_000, 0), None);
    assert_eq!(s.compute_size(1_000_000, 1_000_000, 0, 500_000, 0), None);
    assert_eq!(s.compute_size(1_000_000, 1_000_000, 2_000_000, 0, 0), None);
}

#[test]
fn size_rounds_down_to_tick() {
    // 1.234567 shares at 0.9 -> 1.23 shares with the default tick, 1.2 with a 0.1 tick
    let s = sizer();
    assert_eq!(s.compute_size(1_234_567, 1_000_000_000, 1_000_000_000, 900_000, 0), Some(1_230_000));
    assert_eq!(s.compute_size(1_234_567, 1_000_000_000, 1_000_000_000, 900_000, 100_000), Some(1_200_000));
}

#[test]
fn configured_minimum_bet_is_used() {
    // minimum 5 USDC: 1 share at 0.5 costs 0.5, bumped to 10 shares
    let s = Sizer::new(&config_with_min_bet(5_000_000));
    assert_eq!(s.compute_size(1_000_000, 1_000_000_000, 1_000_000_000, 500_000, 0), Some(10_000_000));
}

#[test]
fn minimum_bet_never_below_one_usdc() {
    // a configured 0.5 minimum is raised to 1: 0.1 share at 0.5 is bumped to 2 shares
    let s = Sizer::new(&config_with_min_bet(500_000));
    assert_eq!(s.compute_size(1_000_000, 1_000_000_000, 100_000_000, 500_000, 0), Some(2_000_000));
}

#[test]
fn copy_respects_min_bet_and_cap() {
    let s = sizer();
    for (t, v, b, p) in [
        (1_000_000u64, 1_000_000_000u64, 100_000_000u64, 500_000u64),
        (999_000_000, 1_000_000_000, 100_000_000, 730_000),
        (7_000_000, 3_000_000, 40_000_000, 120_000),
    ] {
        let size = s.compute_size(t, v, b, p, 0).unwrap();
        let cost_scaled = size * p as u128;
        assert!(cost_scaled >= 1_000_000u128 * 1_000_000);
        assert!(cost_scaled <= b as u128 * 2_500 * 100);
        assert_eq!(size % 10_000, 0);
    }
}

#[test]
fn larger_target_trade_never_copies_less() {
    let s = sizer();
    let mut last = 0u128;
    for t in [1_000_000u64, 5_000_000, 20_000_000, 80_000_000, 400_000_000] {
        let size = s.compute_size(t, 1_000_000_000, 100_000_000, 500_000, 0).unwrap();
        assert!(size >= last);
        last = size;
    }
}

#[test]
fn close_size_is_proportional() {
    // target closed 3 of 10: we close 30% of 7 shares = 2.1 shares
    assert_eq!(sizer().compute_close_size(3_000_000, 10_000_000, 7_000_000, 0), Some(2_100_000));
}

#[test]
fn close_size_capped_at_our_position() {
    // target closed more than it had: we close all of ours
    assert_eq!(sizer().compute_close_size(12_000_000, 10_000_000, 7_000_000, 0), Some(7_000_000));
}

#[test]
fn full_target_close_closes_ours_rounded_down() {
    assert_eq!(sizer().compute_close_size(10_000_000, 10_000_000, 7_005_000, 0), Some(7_000_000));
}

#[test]
fn tiny_close_gives_none() {
    let s = sizer();
    assert_eq!(s.compute_close_size(1_000_000, 1_000_000_000, 5_000_000, 0), None);
    assert_eq!(s.compute_close_size(1_000_000, 0, 5_000_000, 0), None);
    assert_eq!(s.compute_close_size(1_000_000, 10_000_000, 0, 0), None);
}

#[test]
fn close_size_with_huge_position() {
    // no overflow on a position beyond u64: half of it
    let ours: u128 = u64::MAX as u128 * 4;
    let r = sizer().compute_close_size(5, 10, ours, 10_000).unwrap();
    assert_eq!(r, ours / 2 / 10_000 * 10_000);
}
