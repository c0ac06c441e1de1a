use rinha::dataset::{reference_bytes, unzipped_references, MccRiskMap, NormalizationConstants};
use rinha::json::Payload;
use rinha::normalize::Term;
use rinha::query::vectorize;

fn bits(x: f32) -> u32 {
    x.to_bits()
}

fn norm() -> NormalizationConstants {
    NormalizationConstants {
        max_amount: bits(10000.0),
        max_installments: bits(12.0),
        amount_vs_avg_ratio: bits(10.0),
        max_minutes: bits(1440.0),
        max_km: bits(1000.0),
        max_tx_count_24h: bits(20.0),
        max_merchant_avg_amount: bits(5000.0),
    }
}

fn payload() -> Payload {
    Payload {
        amount: bits(41.12),
        customer_avg_amount: bits(82.24),
        merchant_avg_amount: bits(60.25),
        km_from_home: bits(29.23),
        km_from_current: bits(7.5),
        tx_count_24h: 3,
        mcc: 5411,
        minutes_since_last: 30,
        installments: 2,
        hour: 18,
        day_of_week: 3,
        is_online: false,
        card_present: true,
        is_unknown_merchant: false,
        has_last_tx: true,
    }
}

fn risks() -> MccRiskMap {
    let mut map = MccRiskMap::new();
    map.insert("5411".to_string(), bits(0.15));
    map
}

#[test]
fn a_request_becomes_fourteen_terms() {
    let t = vectorize(&payload(), &norm(), &risks(), "5411");
    let expected = [
        Term::Ratio { over: bits(41.12), under: bits(10000.0) },
        Term::Count { count: 2, under: bits(12.0) },
        Term::RatioOf { over: bits(41.12), under: bits(82.24), unit: bits(10.0) },
        Term::Fraction { part: 18, whole: 23 },
        Term::Fraction { part: 2, whole: 6 },
        Term::Count { count: 30, under: bits(1440.0) },
        Term::Ratio { over: bits(7.5), under: bits(1000.0) },
        Term::Ratio { over: bits(29.23), under: bits(1000.0) },
        Term::Count { count: 3, under: bits(20.0) },
        Term::Number(bits(0.0)),
        Term::Number(bits(1.0)),
        Term::Number(bits(0.0)),
        Term::Number(bits(0.15)),
        Term::Ratio { over: bits(60.25), under: bits(5000.0) },
    ];
    assert_eq!(t, expected);
}

#[test]
fn what_a_request_lacks_is_filled_in() {
    let mut p = payload();
    p.has_last_tx = false;
    p.day_of_week = 0;
    p.is_unknown_merchant = true;
    let t = vectorize(&p, &norm(), &risks(), "9999");
    assert_eq!(t[4], Term::Fraction { part: 6, whole: 6 });
    assert_eq!(t[5], Term::Number(bits(-1.0)));
    assert_eq!(t[6], Term::Number(bits(-1.0)));
    assert_eq!(t[11], Term::Number(bits(1.0)));
    assert_eq!(t[12], Term::Number(bits(0.5)));
}

#[test]
fn references_are_unzipped_by_the_name_of_their_file() {
    let json = b"[{\"vector\": [], \"label\": \"fraud\"}]".to_vec();
    let mut e = flate2::write::GzEncoder::new(Vec::new(), flate2::Compression::fast());
    std::io::Write::write_all(&mut e, &json).unwrap();
    let gz = e.finish().unwrap();
    assert_eq!(reference_bytes("data/references.json.gz", &gz), Some(json.clone()));
    assert_eq!(reference_bytes("data/references.json", &json), Some(json.clone()));
    assert_eq!(reference_bytes("data/references.json", &gz), Some(gz.clone()));
    assert_eq!(reference_bytes("data/references.json.gz", &json), None);
    assert_eq!(reference_bytes(".gz", &gz[..gz.len() - 1]), None);
    assert_eq!(unzipped_references(&gz), Some(json.clone()));
    assert_eq!(unzipped_references(&json), None);
}
