use copymet::types::{PositionSnapshot, Side};

#[test]
fn side_labels() {
    assert_eq!(Side::Buy.label(), "BUY");
    assert_eq!(Side::Sell.label(), "SELL");
}

#[test]
fn closing_side_is_opposite() {
    assert_eq!(Side::Buy.opposite(), Side::Sell);
    assert_eq!(Side::Sell.opposite(), Side::Buy);
    assert_eq!(Side::Buy.opposite().opposite(), Side::Buy);
}

#[test]
fn snapshot_equality_compares_fields() {

    let a = PositionSnapshot { token_id: String::from("T"), size: 5, side: Side::Buy, price: 7, condition_id: String::from("c") };
    let mut b = a.clone();
    assert!(a == b);
    b.condition_id = String::from("d");
    assert!(a != b);
    let mut c = a.clone();
    c.side = Side::Sell;
    assert!(a != c);
}
