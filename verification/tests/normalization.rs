use rinha::dataset::{code_of_label, flatten, is_gz_path, label_codes};
use rinha::dataset::{MccRiskMap, NormalizationConstants, ReferenceVector};
use rinha::normalize::{can_normalize, normalize_transaction};
use rinha::normalize::{CustomerData, LastTransactionData, MerchantData, Term};
use rinha::normalize::{TerminalData, TransactionData, TransactionPayload};

/// The number that a term stands for.
fn value(term: Term) -> f32 {
    let f = f32::from_bits;
    match term {
        Term::Number(x) => f(x),
        Term::Fraction { part, whole } => part as f32 / whole as f32,
        Term::Ratio { over, under } => (f(over) / f(under)).clamp(0.0, 1.0),
        Term::Count { count, under } => (count as f32 / f(under)).clamp(0.0, 1.0),
        Term::RatioOf { over, under, unit } => ((f(over) / f(under)) / f(unit)).clamp(0.0, 1.0),
    }
}

fn constants() -> NormalizationConstants {
    NormalizationConstants {
        max_amount: 10000.0f32.to_bits(),
        max_installments: 12.0f32.to_bits(),
        amount_vs_avg_ratio: 10.0f32.to_bits(),
        max_minutes: 1440.0f32.to_bits(),
        max_km: 1000.0f32.to_bits(),
        max_tx_count_24h: 20.0f32.to_bits(),
        max_merchant_avg_amount: 10000.0f32.to_bits(),
    }
}

fn legit() -> TransactionPayload {
    TransactionPayload {
        id: "tx-1329056812".to_string(),
        transaction: TransactionData {
            amount: 41.12f32.to_bits(),
            installments: 2,
            requested_at: "2026-03-11T18:45:53Z".to_string(),
        },
        customer: CustomerData {
            avg_amount: 82.24f32.to_bits(),
            tx_count_24h: 3,
            known_merchants: vec!["MERC-003".to_string(), "MERC-016".to_string()],
        },
        merchant: MerchantData {
            id: "MERC-016".to_string(),
            mcc: "5411".to_string(),
            avg_amount: 60.25f32.to_bits(),
        },
        terminal: TerminalData {
            is_online: false,
            card_present: true,
            km_from_home: 29.23f32.to_bits(),
        },
        last_transaction: None,
    }
}

#[test]
fn test_normalize_example() {
    // Test with the legit example from the docs
    let norm = constants();

    let mut mcc_risk = MccRiskMap::new();
    mcc_risk.insert("5411".to_string(), 0.15f32.to_bits());
    mcc_risk.insert("7802".to_string(), 0.75f32.to_bits());

    let payload = legit();
    assert!(can_normalize(&payload));
    let v = normalize_transaction(&payload, &norm, &mcc_risk).map(value);

    // Expected from docs: [0.0041, 0.1667, 0.05, 0.7826, 0.3333, -1, -1, 0.0292, 0.15, 0, 1, 0, 0.15, 0.006]
    assert!((v[0] - 0.0041).abs() < 0.001, "dim0: {}", v[0]);
    assert!((v[1] - 0.1667).abs() < 0.001, "dim1: {}", v[1]);
    assert!((v[2] - 0.05).abs() < 0.001, "dim2: {}", v[2]);
    assert!((v[3] - 0.7826).abs() < 0.001, "dim3: {}", v[3]);
    assert!((v[4] - 0.3333).abs() < 0.001, "dim4: {}", v[4]);
    assert!((v[5] + 1.0).abs() < 0.001, "dim5: {}", v[5]); // -1 sentinel
    assert!((v[6] + 1.0).abs() < 0.001, "dim6: {}", v[6]); // -1 sentinel
    assert!((v[7] - 0.0292).abs() < 0.001, "dim7: {}", v[7]);
    assert!((v[8] - 0.15).abs() < 0.001, "dim8: {}", v[8]);
    assert!((v[9] - 0.0).abs() < 0.001, "dim9: {}", v[9]);
    assert!((v[10] - 1.0).abs() < 0.001, "dim10: {}", v[10]);
    assert!((v[11] - 0.0).abs() < 0.001, "dim11: {}", v[11]);
    assert!((v[12] - 0.15).abs() < 0.001, "dim12: {}", v[12]);
    assert!((v[13] - 0.006).abs() < 0.001, "dim13: {}", v[13]);
}

#[test]
fn test_normalize_fraud_example() {
    let norm = constants();

    let mut mcc_risk = MccRiskMap::new();
    mcc_risk.insert("7802".to_string(), 0.75f32.to_bits());

    let payload = TransactionPayload {
        id: "tx-3330991687".to_string(),
        transaction: TransactionData {
            amount: 9505.97f32.to_bits(),
            installments: 10,
            requested_at: "2026-03-14T05:15:12Z".to_string(),
        },
        customer: CustomerData {
            avg_amount: 81.28f32.to_bits(),
            tx_count_24h: 20,
            known_merchants: vec![
                "MERC-008".to_string(),
                "MERC-007".to_string(),
                "MERC-005".to_string(),
            ],
        },
        merchant: MerchantData {
            id: "MERC-068".to_string(),
            mcc: "7802".to_string(),
            avg_amount: 54.86f32.to_bits(),
        },
        terminal: TerminalData {
            is_online: false,
            card_present: true,
            km_from_home: 952.27f32.to_bits(),
        },
        last_transaction: None,
    };

    assert!(can_normalize(&payload));
    let v = normalize_transaction(&payload, &norm, &mcc_risk).map(value);

    // Expected: [0.9506, 0.8333, 1.0, 0.2174, 0.8333, -1, -1, 0.9523, 1.0, 0, 1, 1, 0.75, 0.0055]
    assert!((v[0] - 0.9506).abs() < 0.001, "dim0: {}", v[0]);
    assert!((v[1] - 0.8333).abs() < 0.001, "dim1: {}", v[1]);
    assert!((v[2] - 1.0).abs() < 0.001, "dim2: {}", v[2]);
    assert!((v[3] - 0.2174).abs() < 0.001, "dim3: {}", v[3]);
    assert!((v[4] - 0.8333).abs() < 0.001, "dim4: {}", v[4]);
    assert!((v[5] + 1.0).abs() < 0.001, "dim5: {}", v[5]);
    assert!((v[6] + 1.0).abs() < 0.001, "dim6: {}", v[6]);
    assert!((v[7] - 0.9523).abs() < 0.001, "dim7: {}", v[7]);
    assert!((v[8] - 1.0).abs() < 0.001, "dim8: {}", v[8]);
    assert!((v[9] - 0.0).abs() < 0.001, "dim9: {}", v[9]);
    assert!((v[10] - 1.0).abs() < 0.001, "dim10: {}", v[10]);
    assert!((v[11] - 1.0).abs() < 0.001, "dim11: {}", v[11]);
    assert!((v[12] - 0.75).abs() < 0.001, "dim12: {}", v[12]);
    assert!((v[13] - 0.0055).abs() < 0.001, "dim13: {}", v[13]);
}

#[test]
fn the_last_transaction_fills_two_dimensions() {
    let mut payload = legit();
    payload.last_transaction = Some(LastTransactionData {
        timestamp: "2026-03-11T18:15:53Z".to_string(),
        km_from_current: 250.0f32.to_bits(),
    });
    payload.terminal.is_online = true;
    payload.terminal.card_present = false;
    payload.merchant.mcc = "0000".to_string();
    assert!(can_normalize(&payload));
    let terms = normalize_transaction(&payload, &constants(), &MccRiskMap::new());
    assert_eq!(terms[5], Term::Count { count: 30, under: 1440.0f32.to_bits() });
    assert_eq!(terms[6], Term::Ratio { over: 250.0f32.to_bits(), under: 1000.0f32.to_bits() });
    assert_eq!(terms[9], Term::Number(1.0f32.to_bits()));
    assert_eq!(terms[10], Term::Number(0.0f32.to_bits()));
    assert_eq!(terms[12], Term::Number(0.5f32.to_bits()));
    assert_eq!(value(terms[5]), 30.0 / 1440.0);
}

#[test]
fn timestamps_that_cannot_be_read_are_found_before() {
    let mut payload = legit();
    payload.transaction.requested_at = "2026-13-11T18:45:53Z".to_string();
    assert!(!can_normalize(&payload));
    payload.transaction.requested_at = "0000-01-11T18:45:53Z".to_string();
    assert!(!can_normalize(&payload));
    payload.transaction.requested_at = "0000-03-11T18:45:53Z".to_string();
    assert!(can_normalize(&payload));
    payload.transaction.requested_at = "-001-03-11T18:45:53Z".to_string();
    assert!(!can_normalize(&payload));
    // a character of two bytes over the end of the year
    payload.transaction.requested_at = "202\u{e9}-03-11T18:45:53Z".to_string();
    assert!(!can_normalize(&payload));
    payload.transaction.requested_at = "".to_string();
    assert!(can_normalize(&payload));
    payload.last_transaction = Some(LastTransactionData {
        timestamp: "2026-03-11T18:15:5\u{e9}Z".to_string(),
        km_from_current: 0,
    });
    payload.transaction.requested_at = "2026-03-11T18:45:53Z".to_string();
    assert!(!can_normalize(&payload));
}

#[test]
fn a_later_risk_replaces_an_earlier_one() {
    let mut risks = MccRiskMap::new();
    assert_eq!(risks.get("5411"), None);
    risks.insert("5411".to_string(), 1);
    risks.insert("7802".to_string(), 2);
    risks.insert("5411".to_string(), 3);
    assert_eq!(risks.get("5411"), Some(3));
    assert_eq!(risks.get("7802"), Some(2));
    assert_eq!(risks.get("541"), None);
}

#[test]
fn references_are_laid_behind_each_other() {
    let mut first = [0u32; 14];
    let mut second = [0u32; 14];
    for d in 0..14 {
        first[d] = (d as f32 / 16.0).to_bits();
        second[d] = (-(d as f32)).to_bits();
    }
    let refs = vec![
        ReferenceVector { vector: first, label: "fraud".to_string() },
        ReferenceVector { vector: second, label: "legit".to_string() },
    ];
    let halves = flatten(&refs, |x| half::f16::from_f32(f32::from_bits(x)).to_bits());
    assert_eq!(halves.len(), 28);
    for d in 0..14 {
        assert_eq!(half::f16::from_bits(halves[d]).to_f32(), d as f32 / 16.0);
        assert_eq!(half::f16::from_bits(halves[14 + d]).to_f32(), -(d as f32));
    }
    assert_eq!(label_codes(&refs), vec![1, 0]);
    assert_eq!(code_of_label("fraud"), 1);
    assert_eq!(code_of_label("Fraud"), 0);
    assert_eq!(code_of_label("fraud "), 0);
    assert_eq!(code_of_label(""), 0);
}

#[test]
fn gzip_files_are_told_by_their_name() {
    assert!(is_gz_path("data/references.json.gz"));
    assert!(is_gz_path(".gz"));
    assert!(!is_gz_path("gz"));
    assert!(!is_gz_path("references.json"));
    assert!(!is_gz_path("references.gz.json"));
}
