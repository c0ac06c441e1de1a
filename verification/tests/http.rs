use rinha::http::{content_length_fits, has_connection_close, parse_content_length, parse_path};
use rinha::http::{Conn, Step, RX_CAP};
use rinha::responses::{fraud_response, not_found_response, score_response};

fn fed(bytes: &[u8]) -> Conn {
    let mut conn = Conn::new();
    conn.feed(bytes);
    conn
}

fn answer(step: Step) -> (String, bool) {
    match step {
        Step::Answer { response, close } => (response.to_string(), close),
        _ => panic!("no answer"),
    }
}

#[test]
fn paths_stand_between_two_spaces() {
    assert_eq!(parse_path(b"GET /ready HTTP/1.1\r\nHost: x"), b"/ready");
    assert_eq!(parse_path(b"POST /fraud-score HTTP/1.1"), b"/fraud-score");
    assert_eq!(parse_path(b"GET /ready"), b"/ready");
    assert_eq!(parse_path(b"GET  /ready"), b"");
    assert_eq!(parse_path(b"GET"), b"");
    assert_eq!(parse_path(b"GET "), b"");
    assert_eq!(parse_path(b""), b"");
}

#[test]
fn content_length_is_read_in_two_spellings() {
    assert_eq!(parse_content_length(b"POST / HTTP/1.1\r\nContent-Length: 42\r\nA: b"), Some(42));
    assert_eq!(parse_content_length(b"content-length:7"), Some(7));
    assert_eq!(parse_content_length(b"content-length: \t\r\n 7x9"), Some(7));
    assert_eq!(parse_content_length(b"content-length: x"), Some(0));
    assert_eq!(parse_content_length(b"CONTENT-LENGTH: 5"), None);
    assert_eq!(parse_content_length(b""), None);
    // the lower-case spelling is looked for first, wherever it stands
    assert_eq!(parse_content_length(b"Content-Length: 1\r\ncontent-length: 2"), Some(2));
    assert!(content_length_fits(b"Content-Length: 0018446744073709551615"));
    assert!(!content_length_fits(b"Content-Length: 118446744073709551616"));
    assert!(content_length_fits(b"nothing"));
}

#[test]
fn close_is_asked_for_in_any_case() {
    assert!(has_connection_close(b"GET / HTTP/1.1\r\nConnection: close\r\nA: b"));
    assert!(has_connection_close(b"connection: CLOSE"));
    assert!(has_connection_close(b"Connection: \t ClOsE"));
    assert!(!has_connection_close(b"Connection: keep-alive"));
    assert!(!has_connection_close(b"Connection: clos"));
    assert!(!has_connection_close(b"CONNECTION: close"));
    assert!(!has_connection_close(b"Connection:close"));
    assert!(!has_connection_close(b""));
    // the first header of the first spelling decides
    assert!(!has_connection_close(b"connection: close\r\nConnection: keep-alive"));
}

#[test]
fn fraud_answers_are_written_out() {
    assert_eq!(
        fraud_response(0, false),
        "HTTP/1.1 200 OK\r\nContent-Type: application/json\r\nContent-Length: 35\r\n\r\n{\"approved\":true,\"fraud_score\":0.0}"
    );
    assert_eq!(
        fraud_response(2, false),
        "HTTP/1.1 200 OK\r\nContent-Type: application/json\r\nContent-Length: 35\r\n\r\n{\"approved\":true,\"fraud_score\":0.4}"
    );
    assert_eq!(
        fraud_response(3, true),
        "HTTP/1.1 200 OK\r\nContent-Type: application/json\r\nContent-Length: 36\r\nConnection: close\r\n\r\n{\"approved\":false,\"fraud_score\":0.6}"
    );
    assert_eq!(
        fraud_response(5, false),
        "HTTP/1.1 200 OK\r\nContent-Type: application/json\r\nContent-Length: 36\r\n\r\n{\"approved\":false,\"fraud_score\":1.0}"
    );
    assert_eq!(fraud_response(9, false), fraud_response(5, false));
}

#[test]
fn content_lengths_are_those_of_the_bodies() {
    for count in 0..6 {
        for close in [false, true] {
            let response = fraud_response(count, close);
            let (head, body) = response.split_once("\r\n\r\n").unwrap();
            assert!(head.contains(&format!("\r\nContent-Length: {}", body.len())));
            assert_eq!(head.ends_with("\r\nConnection: close"), close);
            assert_eq!(body.contains("\"approved\":true"), count < 3);
            assert!(body.contains(&format!("\"fraud_score\":{:.1}", count as f32 / 5.0)));
        }
    }
}

#[test]
fn bare_answers_are_written_out() {
    assert_eq!(
        score_response(None, false),
        "HTTP/1.1 400 Bad Request\r\nContent-Length: 0\r\n\r\n"
    );
    assert_eq!(
        score_response(None, true),
        "HTTP/1.1 400 Bad Request\r\nContent-Length: 0\r\nConnection: close\r\n\r\n"
    );
    assert_eq!(score_response(Some(1), true), fraud_response(1, true));
    assert_eq!(
        not_found_response(true),
        "HTTP/1.1 404 Not Found\r\nContent-Length: 0\r\nConnection: close\r\n\r\n"
    );
}

#[test]
fn a_connection_waits_for_a_whole_request() {
    let request = b"POST /fraud-score HTTP/1.1\r\nContent-Length: 4\r\n\r\nbody";
    for n in 0..request.len() {
        let mut conn = fed(&request[..n]);
        assert!(matches!(conn.poll(true), Step::ReadMore));
        conn.feed(&request[n..]);
        match conn.poll(true) {
            Step::Score { body, close } => {
                assert_eq!(body, b"body");
                assert!(!close);
            }
            _ => panic!("not scored"),
        }
        assert_eq!(conn.room(), RX_CAP);
        assert!(matches!(conn.poll(true), Step::ReadMore));
    }
}

#[test]
fn a_short_request_is_not_looked_at_before_sixteen_bytes() {
    let mut conn = fed(b"GET /a \r\n\r\n");
    assert!(matches!(conn.poll(true), Step::ReadMore));
    conn.feed(b"GET /b ");
    assert_eq!(answer(conn.poll(true)).0, not_found_response(false));
    assert_eq!(conn.room(), RX_CAP - 7);
}

#[test]
fn routes_depend_on_the_path_and_on_readiness() {
    let ready = "HTTP/1.1 200 OK\r\nContent-Length: 0\r\n\r\n";
    let not_ready =
        "HTTP/1.1 503 Service Unavailable\r\nContent-Length: 0\r\nConnection: close\r\n\r\n";
    let get = |path: &str, is_ready: bool| {
        let mut conn = fed(format!("GET {} HTTP/1.1\r\n\r\n", path).as_bytes());
        conn.poll(is_ready)
    };
    assert_eq!(answer(get("/ready", true)), (ready.to_string(), false));
    assert_eq!(answer(get("/ready", false)), (ready.to_string(), false));
    assert_eq!(answer(get("/fraud-score", false)), (not_ready.to_string(), false));
    assert_eq!(answer(get("/nothing", false)), (not_ready.to_string(), false));
    assert!(matches!(get("/fraud-score", true), Step::Score { .. }));
    assert_eq!(answer(get("/nothing", true)), (not_found_response(false).to_string(), false));
}

#[test]
fn a_connection_is_closed_when_asked_for() {
    let mut conn = fed(b"GET /nothing HTTP/1.1\r\nConnection: close\r\n\r\n");
    assert_eq!(answer(conn.poll(true)), (not_found_response(true).to_string(), true));
    let mut conn = fed(b"POST /fraud-score HTTP/1.1\r\nconnection: close\r\n\r\n");
    assert!(matches!(conn.poll(true), Step::Score { close: true, .. }));
}

#[test]
fn pipelined_requests_are_answered_one_by_one() {
    let mut conn = fed(
        b"POST /fraud-score HTTP/1.1\r\nContent-Length: 2\r\n\r\n{}GET /ready HTTP/1.1\r\n\r\nGET /no",
    );
    match conn.poll(true) {
        Step::Score { body, .. } => assert_eq!(body, b"{}"),
        _ => panic!("not scored"),
    }
    assert_eq!(answer(conn.poll(true)).0, "HTTP/1.1 200 OK\r\nContent-Length: 0\r\n\r\n");
    assert!(matches!(conn.poll(true), Step::ReadMore));
    assert_eq!(conn.room(), RX_CAP - 7);
    conn.feed(b"thing HTTP/1.1\r\n\r\n");
    assert_eq!(answer(conn.poll(true)).0, not_found_response(false));
}

#[test]
fn a_request_that_does_not_fit_closes_the_connection() {
    let mut conn = fed(&vec![b'x'; RX_CAP - 1]);
    assert!(matches!(conn.poll(true), Step::ReadMore));
    conn.feed(b"x");
    assert!(matches!(conn.poll(true), Step::Close));
    let mut long = b"POST / HTTP/1.1\r\nContent-Length: 9000\r\n\r\n".to_vec();
    long.resize(RX_CAP - 1, b'x');
    let mut conn = fed(&long);
    assert!(matches!(conn.poll(true), Step::ReadMore));
    conn.feed(b"x");
    assert!(matches!(conn.poll(true), Step::Close));
    // a length that cannot even be counted
    let mut conn = fed(b"POST / HTTP/1.1\r\nContent-Length: 99999999999999999999999\r\n\r\n");
    assert!(matches!(conn.poll(true), Step::ReadMore));
}
