use rinha::balancer::{no_upstream_response, pick_upstream};
use rinha::evaluation::{small_draw, tally, warmup_queries, Tally};
use rinha::float_bits::{float_less, total_less};

#[test]
fn verdicts_are_tallied() {
    let v = [(true, true), (true, false), (false, true), (false, false), (true, false)];
    assert_eq!(tally(&v), Tally { correct: 2, false_positives: 2, false_negatives: 1 });
    assert_eq!(tally(&[]), Tally { correct: 0, false_positives: 0, false_negatives: 0 });
}

#[test]
fn warmup_queries_are_fractions() {
    let queries = warmup_queries();
    assert_eq!(queries.len(), 20);
    let mut state = 0x12345678u32;
    for q in &queries {
        for &x in q {
            assert_eq!(small_draw(state), state.wrapping_mul(1664525).wrapping_add(1013904223));
            state = state.wrapping_mul(1664525).wrapping_add(1013904223);
            assert_eq!(x, state >> 8);
            assert!((x as f32 / (1u32 << 24) as f32) < 1.0);
        }
    }
}

#[test]
fn connections_go_round_the_upstreams() {
    let picked: Vec<usize> = (0..7).map(|c| pick_upstream(c, 3)).collect();
    assert_eq!(picked, vec![0, 1, 2, 0, 1, 2, 0]);
    assert_eq!(pick_upstream(usize::MAX, 1), 0);
    assert_eq!(
        no_upstream_response(),
        "HTTP/1.1 503 Service Unavailable\r\nContent-Length: 0\r\n\r\n"
    );
}

#[test]
fn bit_patterns_compare_as_the_numbers_do() {
    let numbers = [
        f32::NEG_INFINITY,
        f32::MIN,
        -1.5,
        -1.0,
        -f32::MIN_POSITIVE,
        -0.0,
        0.0,
        1e-40,
        1.0,
        1.5,
        f32::MAX,
        f32::INFINITY,
        f32::NAN,
        -f32::NAN,
    ];
    for x in numbers {
        for y in numbers {
            assert_eq!(float_less(x.to_bits(), y.to_bits()), x < y);
            assert_eq!(
                total_less(x.to_bits(), y.to_bits()),
                x.total_cmp(&y) == std::cmp::Ordering::Less
            );
        }
    }
}
