use copymet::monitor::{PositionDelta, WalletMonitor};
use copymet::types::{Position, Side};

fn pos(asset: Option<&str>, size: Option<u64>, side: Option<&str>, cur: Option<u64>, avg: Option<u64>, cond: Option<&str>) -> Position {
    Position {
        asset: asset.map(String::from),
        condition_id: cond.map(String::from),
        size,
        avg_price: avg,
        side: side.map(String::from),
        market: None,
        outcome: None,
        cur_price: cur,
        cash_pnl: None,
        percent_pnl: None,
        proxy_wallet: None,
        current_value: None,
        redeemable: None,
        title: None,
    }
}

fn opened(d: &PositionDelta) -> (String, String, u64, Side, u64) {
    match d {
        PositionDelta::Opened { token_id, condition_id, size, side, price } => {
            (token_id.clone(), condition_id.clone(), *size, *side, *price)
        }
        _ => panic!("not an opened delta"),
    }
}

#[test]
fn new_monitor_is_first_poll() {
    let m = WalletMonitor::new(String::from("0xTarget"));
    assert!(m.is_first_poll());
    assert_eq!(m.tracked_count(), 0);
    assert_eq!(m.target_wallet(), "0xTarget");
}

#[test]
fn first_poll_opens_every_position() {
    let mut m = WalletMonitor::new(String::from("0xT"));
    let ps = vec![
        pos(Some("A"), Some(10_000_000), Some("BUY"), Some(400_000), Some(350_000), Some("cA")),
        pos(Some("B"), Some(5_000_000), Some("sell"), None, Some(300_000), None),
    ];
    let d = m.poll_positions(&ps);
    assert_eq!(d.len(), 2);
    assert_eq!(opened(&d[0]), (String::from("A"), String::from("cA"), 10_000_000, Side::Buy, 400_000));
    assert_eq!(opened(&d[1]), (String::from("B"), String::new(), 5_000_000, Side::Sell, 300_000));
    assert!(!m.is_first_poll());
    assert_eq!(m.tracked_count(), 2);
}

#[test]
fn unqualified_positions_are_skipped() {
    let mut m = WalletMonitor::new(String::from("0xT"));
    let ps = vec![
        pos(None, Some(10_000_000), None, None, None, None),
        pos(Some("Z"), Some(0), None, None, None, None),
        pos(Some("N"), None, None, None, None, None),
        pos(Some("P"), Some(1), Some("Buy"), None, None, None),
    ];
    let d = m.poll_positions(&ps);
    assert_eq!(d.len(), 1);
    // no price at all: 0.5
    assert_eq!(opened(&d[0]), (String::from("P"), String::new(), 1, Side::Buy, 500_000));
}

#[test]
fn last_report_of_a_token_wins() {
    let mut m = WalletMonitor::new(String::from("0xT"));
    let ps = vec![
        pos(Some("A"), Some(1_000_000), Some("BUY"), Some(100_000), None, None),
        pos(Some("B"), Some(2_000_000), Some("BUY"), Some(200_000), None, None),
        pos(Some("A"), Some(3_000_000), Some("SELL"), Some(300_000), None, None),
        pos(Some("A"), Some(0), Some("BUY"), Some(900_000), None, None),
    ];
    let d = m.poll_positions(&ps);
    assert_eq!(d.len(), 2);
    assert_eq!(opened(&d[0]), (String::from("A"), String::new(), 3_000_000, Side::Sell, 300_000));
    assert_eq!(opened(&d[1]), (String::from("B"), String::new(), 2_000_000, Side::Buy, 200_000));
    assert_eq!(m.tracked_count(), 2);
}

#[test]
fn changes_and_closes_are_reported() {
    let mut m = WalletMonitor::new(String::from("0xT"));
    m.poll_positions(&vec![
        pos(Some("A"), Some(10_000_000), Some("BUY"), Some(400_000), None, Some("cA")),
        pos(Some("B"), Some(5_000_000), Some("SELL"), Some(300_000), None, Some("cB")),
        pos(Some("C"), Some(1_000_000), Some("BUY"), Some(200_000), None, Some("cC")),
    ]);
    let d = m.poll_positions(&vec![
        pos(Some("D"), Some(2_000_000), Some("BUY"), Some(600_000), None, Some("cD")),
        pos(Some("A"), Some(10_005_000), Some("BUY"), Some(410_000), None, Some("cA")),
        pos(Some("B"), Some(3_000_000), Some("SELL"), Some(310_000), None, Some("cB")),
        pos(Some("C"), Some(1_010_000), Some("BUY"), Some(220_000), None, Some("cC")),
    ]);
    // D opened, A changed by 0.005 (not reported), B decreased by 2, C increased by 0.01
    assert_eq!(d.len(), 3);
    assert_eq!(opened(&d[0]).0, "D");
    match &d[1] {
        PositionDelta::Decreased { token_id, condition_id, removed_size, new_total, side, price } => {
            assert_eq!((token_id.as_str(), condition_id.as_str()), ("B", "cB"));
            assert_eq!((*removed_size, *new_total, *side, *price), (2_000_000, 3_000_000, Side::Sell, 310_000));
        }
        _ => panic!("expected a decrease"),
    }
    match &d[2] {
        PositionDelta::Increased { token_id, added_size, new_total, side, price, .. } => {
            assert_eq!(token_id, "C");
            assert_eq!((*added_size, *new_total, *side, *price), (10_000, 1_010_000, Side::Buy, 220_000));
        }
        _ => panic!("expected an increase"),
    }
    let d = m.poll_positions(&vec![pos(Some("B"), Some(3_000_000), Some("SELL"), Some(310_000), None, Some("cB"))]);
    assert_eq!(d.len(), 3);
    let closed: Vec<(String, String, u64, Side)> = d
        .iter()
        .map(|x| match x {
            PositionDelta::Closed { token_id, condition_id, old_size, side } => {
                (token_id.clone(), condition_id.clone(), *old_size, *side)
            }
            _ => panic!("expected closes only"),
        })
        .collect();
    assert_eq!(closed[0], (String::from("D"), String::from("cD"), 2_000_000, Side::Buy));
    assert_eq!(closed[1], (String::from("A"), String::from("cA"), 10_005_000, Side::Buy));
    assert_eq!(closed[2], (String::from("C"), String::from("cC"), 1_010_000, Side::Buy));
    assert_eq!(m.tracked_count(), 1);
}

#[test]
fn repeated_poll_reports_nothing() {
    let mut m = WalletMonitor::new(String::from("0xT"));
    let ps = vec![
        pos(Some("A"), Some(10_000_000), Some("BUY"), Some(400_000), None, None),
        pos(Some("A"), Some(12_000_000), Some("BUY"), Some(400_000), None, None),
        pos(Some("B"), Some(5_000_000), Some("SELL"), None, None, None),
    ];
    assert_eq!(m.poll_positions(&ps).len(), 2);
    assert!(m.poll_positions(&ps).is_empty());
    assert_eq!(m.tracked_count(), 2);
}

#[test]
fn decrease_accounts_for_previous_size() {
    let mut m = WalletMonitor::new(String::from("0xT"));
    m.poll_positions(&vec![pos(Some("A"), Some(7_500_000), None, None, None, None)]);
    let d = m.poll_positions(&vec![pos(Some("A"), Some(2_500_000), None, None, None, None)]);
    match &d[0] {
        PositionDelta::Decreased { removed_size, new_total, .. } => assert_eq!(removed_size + new_total, 7_500_000),
        _ => panic!("expected a decrease"),
    }
}

#[test]
fn empty_poll_after_empty_start_reports_nothing() {
    let mut m = WalletMonitor::new(String::from("0xT"));
    assert!(m.poll_positions(&[]).is_empty());
    assert!(m.is_first_poll());
}

#[test]
fn diff_names_each_token_once() {
    let tok = |d: &PositionDelta| match d {
        PositionDelta::Opened { token_id, .. }
        | PositionDelta::Increased { token_id, .. }
        | PositionDelta::Decreased { token_id, .. }
        | PositionDelta::Closed { token_id, .. } => token_id.clone(),
    };
    let mut m = WalletMonitor::new(String::from("0xT"));
    m.poll_positions(&vec![
        pos(Some("A"), Some(1_000_000), None, None, None, None),
        pos(Some("B"), Some(1_000_000), None, None, None, None),
    ]);
    // A reported twice (last report wins), B gone, C new
    let d = m.poll_positions(&vec![
        pos(Some("A"), Some(3_000_000), None, None, None, None),
        pos(Some("C"), Some(1_000_000), None, None, None, None),
        pos(Some("A"), Some(5_000_000), None, None, None, None),
    ]);
    let mut tokens: Vec<String> = d.iter().map(tok).collect();
    assert_eq!(tokens, vec!["A", "C", "B"]);
    tokens.sort();
    tokens.dedup();
    assert_eq!(tokens.len(), d.len());
}
