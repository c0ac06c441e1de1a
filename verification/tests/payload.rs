use rinha::json::{can_parse, day_of_week, minutes_between, parse, parse_digit, parse_iso_str};
use rinha::json::{Customer, LastTransaction, Merchant, RawPayload, Terminal, Transaction};

fn raw(requested_at: &str) -> RawPayload {
    RawPayload {
        transaction: Transaction {
            amount: 41.12f32.to_bits(),
            installments: 2,
            requested_at: requested_at.to_string(),
        },
        customer: Customer {
            avg_amount: 82.24f32.to_bits(),
            tx_count_24h: 3,
            known_merchants: vec!["MERC-003".to_string(), "MERC-016".to_string()],
        },
        merchant: Merchant {
            id: "MERC-016".to_string(),
            mcc: "5411".to_string(),
            avg_amount: 60.25f32.to_bits(),
        },
        terminal: Terminal {
            is_online: false,
            card_present: true,
            km_from_home: 29.23f32.to_bits(),
        },
        last_transaction: None,
    }
}

#[test]
fn digits_are_read() {
    assert_eq!(parse_digit(b'0'), Some(0));
    assert_eq!(parse_digit(b'9'), Some(9));
    assert_eq!(parse_digit(b'/'), None);
    assert_eq!(parse_digit(b':'), None);
}

#[test]
fn times_are_read_up_to_the_minute() {
    assert_eq!(parse_iso_str("2026-03-11T20:23:35Z"), Some((2026, 3, 11, 20, 23)));
    assert_eq!(parse_iso_str("2026/03/11 20.23"), Some((2026, 3, 11, 20, 23)));
    assert_eq!(parse_iso_str("2026-03-11T20:2"), None);
    assert_eq!(parse_iso_str("2026-00-11T20:23"), None);
    assert_eq!(parse_iso_str("2026-13-11T20:23"), None);
    assert_eq!(parse_iso_str("2026-03-00T20:23"), None);
    assert_eq!(parse_iso_str("2026-03-32T20:23"), None);
    assert_eq!(parse_iso_str("2026-02-31T20:23"), Some((2026, 2, 31, 20, 23)));
    assert_eq!(parse_iso_str("2026-03-11T24:23"), None);
    assert_eq!(parse_iso_str("2026-03-11T20:60"), None);
    assert_eq!(parse_iso_str("202x-03-11T20:23"), None);
}

#[test]
fn spans_are_rough() {
    assert_eq!(minutes_between(2026, 3, 11, 20, 23, 2026, 3, 11, 20, 53), 30);
    // every month counts 30 days, every year 365
    assert_eq!(minutes_between(2026, 2, 28, 0, 0, 2026, 3, 1, 0, 0), 3 * 1440);
    assert_eq!(minutes_between(2025, 12, 31, 0, 0, 2026, 1, 1, 0, 0), 5 * 1440);
    assert_eq!(minutes_between(2026, 3, 11, 20, 53, 2026, 3, 11, 20, 23), 0);
}

#[test]
fn weekdays_start_on_sunday_here() {
    assert_eq!(day_of_week(2026, 3, 15), 0);
    assert_eq!(day_of_week(2026, 3, 11), 3);
    assert_eq!(day_of_week(2026, 3, 14), 6);
}

#[test]
fn a_transaction_is_scored_by_its_parts() {
    let p = raw("2026-03-11T18:45:53Z");
    assert!(can_parse(&p));
    let v = parse(&p).unwrap();
    assert_eq!(v.amount, 41.12f32.to_bits());
    assert_eq!(v.customer_avg_amount, 82.24f32.to_bits());
    assert_eq!(v.merchant_avg_amount, 60.25f32.to_bits());
    assert_eq!(v.km_from_home, 29.23f32.to_bits());
    assert_eq!(v.km_from_current, 0.0f32.to_bits());
    assert_eq!((v.tx_count_24h, v.mcc, v.minutes_since_last), (3, 5411, 0));
    assert_eq!((v.installments, v.hour, v.day_of_week), (2, 18, 3));
    assert_eq!((v.is_online, v.card_present), (false, true));
    assert_eq!((v.is_unknown_merchant, v.has_last_tx), (false, false));
}

#[test]
fn the_last_transaction_gives_minutes_and_distance() {
    let mut p = raw("2026-03-11T18:45:53Z");
    p.last_transaction = Some(LastTransaction {
        timestamp: "2026-03-11T18:15:00Z".to_string(),
        km_from_current: 1.5f32.to_bits(),
    });
    p.merchant.id = "MERC-999".to_string();
    let v = parse(&p).unwrap();
    assert_eq!((v.minutes_since_last, v.has_last_tx), (30, true));
    assert_eq!(v.km_from_current, 1.5f32.to_bits());
    assert!(v.is_unknown_merchant);
}

#[test]
fn numbers_are_cut_to_their_size() {
    let mut p = raw("2026-03-11T18:45:53Z");
    p.customer.tx_count_24h = -1;
    p.transaction.installments = 259;
    p.merchant.mcc = "+00042".to_string();
    let v = parse(&p).unwrap();
    assert_eq!((v.tx_count_24h, v.installments, v.mcc), (u32::MAX, 3, 42));
    p.transaction.installments = -1;
    for mcc in ["", "+", "-1", "4 2", "4294967296", "x"] {
        p.merchant.mcc = mcc.to_string();
        let v = parse(&p).unwrap();
        assert_eq!((v.installments, v.mcc), (255, 0));
    }
    p.merchant.mcc = "4294967295".to_string();
    assert_eq!(parse(&p).unwrap().mcc, u32::MAX);
}

#[test]
fn a_transaction_without_a_readable_time_is_not_scored() {
    let p = raw("yesterday");
    assert!(can_parse(&p));
    assert_eq!(parse(&p), None);
    let mut p = raw("2026-03-11T18:45:53Z");
    p.last_transaction =
        Some(LastTransaction { timestamp: "before".to_string(), km_from_current: 0 });
    assert!(can_parse(&p));
    assert_eq!(parse(&p), None);
}

#[test]
fn dates_before_march_of_the_year_zero_are_told_before() {
    assert!(!can_parse(&raw("0000-02-11T18:45:53Z")));
    assert!(can_parse(&raw("0000-03-11T18:45:53Z")));
    assert!(can_parse(&raw("0001-01-11T18:45:53Z")));
    let mut p = raw("0000-02-11T18:45:53Z");
    p.last_transaction =
        Some(LastTransaction { timestamp: "before".to_string(), km_from_current: 0 });
    assert!(can_parse(&p));
    assert_eq!(parse(&p), None);
}
