use copymet::auth::{build_hmac_headers, build_hmac_headers_at, build_hmac_headers_by_clock, AuthError};

fn pairs(h: &[(String, String)]) -> Vec<(&str, &str)> {
    h.iter().map(|(k, v)| (k.as_str(), v.as_str())).collect()
}

#[test]
fn signed_headers_for_known_key() {
    // secret "a2V5" is base64 of "key"; message "1700000000GET/orders"
    let h = build_hmac_headers_at("k1", "a2V5", "pp", "get", "/orders", "", 1_700_000_000).unwrap();
    assert_eq!(
        pairs(&h),
        vec![
            ("POLY_HMAC_KEY", "k1"),
            ("POLY_HMAC_SIGNATURE", "yElTLt+7mheZN9S0p6f0JSgz2zdcJF94t3Yo1CdPb5Y="),
            ("POLY_HMAC_TIMESTAMP", "1700000000"),
            ("POLY_HMAC_PASSPHRASE", "pp"),
        ]
    );
}

#[test]
fn body_is_signed() {
    let h = build_hmac_headers_at("k1", "a2V5", "pp", "POST", "/order", "{\"a\":1}", 1_700_000_000).unwrap();
    assert_eq!(h[1].1, "FdadS/NH5GcO/rGtDlnFoJjrl3mVJ2Lq+J8da64yz1M=");
}

#[test]
fn negative_timestamp_is_written_with_sign() {
    let h = build_hmac_headers_at("k1", "a2V5", "pp", "DELETE", "/orders", "", -5).unwrap();
    assert_eq!(h[2].1, "-5");
    assert_eq!(h[1].1, "nP5VCXiq/Bq/AOFgLPCWSh7gFIqWZfdon5XeUMN3Oac=");
}

#[test]
fn invalid_secret_is_refused() {
    assert_eq!(build_hmac_headers_at("k1", "not base64!", "pp", "GET", "/", "", 0), Err(AuthError::InvalidSecret));
    assert_eq!(build_hmac_headers("k1", "***", "pp", "GET", "/", ""), Err(AuthError::InvalidSecret));
}

#[test]
fn headers_signed_now() {
    let h = build_hmac_headers("k1", "a2V5", "pp", "GET", "/orders", "").unwrap();
    assert_eq!(h.len(), 4);
    let ts: i64 = h[2].1.parse().unwrap();
    assert!(ts > 1_600_000_000);
    let again = build_hmac_headers_at("k1", "a2V5", "pp", "GET", "/orders", "", ts).unwrap();
    assert_eq!(again, h);
}

#[test]
fn clock_reading_decides_the_timestamp() {
    let by_clock = build_hmac_headers_by_clock("k1", "a2V5", "pp", "get", "/orders", "", Some(1_700_000_000));
    assert_eq!(by_clock, build_hmac_headers_at("k1", "a2V5", "pp", "get", "/orders", "", 1_700_000_000));
    assert_eq!(by_clock.unwrap()[2].1, "1700000000");
    let at_max = build_hmac_headers_by_clock("k1", "a2V5", "pp", "GET", "/", "", Some(i64::MAX as u64)).unwrap();
    assert_eq!(at_max[2].1, "9223372036854775807");
    assert_eq!(
        build_hmac_headers_by_clock("k1", "a2V5", "pp", "GET", "/", "", Some(i64::MAX as u64 + 1)),
        Err(AuthError::ClockUnavailable)
    );
    assert_eq!(build_hmac_headers_by_clock("k1", "a2V5", "pp", "GET", "/", "", None), Err(AuthError::ClockUnavailable));
    assert_eq!(build_hmac_headers_by_clock("k1", "***", "pp", "GET", "/", "", Some(0)), Err(AuthError::InvalidSecret));
}
