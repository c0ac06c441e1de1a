//! The answers of the service.

use vstd::prelude::*;

verus! {

/// Fraud answers on a connection that is kept.
pub const HTTP_FRAUD_KA_0: &'static str = "HTTP/1.1 200 OK\r\nContent-Type: application/json\r\nContent-Length: 35\r\n\r\n{\"approved\":true,\"fraud_score\":0.0}";

pub const HTTP_FRAUD_KA_1: &'static str = "HTTP/1.1 200 OK\r\nContent-Type: application/json\r\nContent-Length: 35\r\n\r\n{\"approved\":true,\"fraud_score\":0.2}";

pub const HTTP_FRAUD_KA_2: &'static str = "HTTP/1.1 200 OK\r\nContent-Type: application/json\r\nContent-Length: 35\r\n\r\n{\"approved\":true,\"fraud_score\":0.4}";

pub const HTTP_FRAUD_KA_3: &'static str = "HTTP/1.1 200 OK\r\nContent-Type: application/json\r\nContent-Length: 36\r\n\r\n{\"approved\":false,\"fraud_score\":0.6}";

pub const HTTP_FRAUD_KA_4: &'static str = "HTTP/1.1 200 OK\r\nContent-Type: application/json\r\nContent-Length: 36\r\n\r\n{\"approved\":false,\"fraud_score\":0.8}";

pub const HTTP_FRAUD_KA_5: &'static str = "HTTP/1.1 200 OK\r\nContent-Type: application/json\r\nContent-Length: 36\r\n\r\n{\"approved\":false,\"fraud_score\":1.0}";

/// Fraud answers on a connection that is closed.
pub const HTTP_FRAUD_CLOSE_0: &'static str = "HTTP/1.1 200 OK\r\nContent-Type: application/json\r\nContent-Length: 35\r\nConnection: close\r\n\r\n{\"approved\":true,\"fraud_score\":0.0}";

pub const HTTP_FRAUD_CLOSE_1: &'static str = "HTTP/1.1 200 OK\r\nContent-Type: application/json\r\nContent-Length: 35\r\nConnection: close\r\n\r\n{\"approved\":true,\"fraud_score\":0.2}";

pub const HTTP_FRAUD_CLOSE_2: &'static str = "HTTP/1.1 200 OK\r\nContent-Type: application/json\r\nContent-Length: 35\r\nConnection: close\r\n\r\n{\"approved\":true,\"fraud_score\":0.4}";

pub const HTTP_FRAUD_CLOSE_3: &'static str = "HTTP/1.1 200 OK\r\nContent-Type: application/json\r\nContent-Length: 36\r\nConnection: close\r\n\r\n{\"approved\":false,\"fraud_score\":0.6}";

pub const HTTP_FRAUD_CLOSE_4: &'static str = "HTTP/1.1 200 OK\r\nContent-Type: application/json\r\nContent-Length: 36\r\nConnection: close\r\n\r\n{\"approved\":false,\"fraud_score\":0.8}";

pub const HTTP_FRAUD_CLOSE_5: &'static str = "HTTP/1.1 200 OK\r\nContent-Type: application/json\r\nContent-Length: 36\r\nConnection: close\r\n\r\n{\"approved\":false,\"fraud_score\":1.0}";

/// Answers without a body.
pub const RESP_READY: &'static str = "HTTP/1.1 200 OK\r\nContent-Length: 0\r\n\r\n";

pub const RESP_NOT_FOUND_KA: &'static str = "HTTP/1.1 404 Not Found\r\nContent-Length: 0\r\n\r\n";

pub const RESP_NOT_FOUND_CLOSE: &'static str = "HTTP/1.1 404 Not Found\r\nContent-Length: 0\r\nConnection: close\r\n\r\n";

pub const RESP_BAD_KA: &'static str = "HTTP/1.1 400 Bad Request\r\nContent-Length: 0\r\n\r\n";

pub const RESP_BAD_CLOSE: &'static str = "HTTP/1.1 400 Bad Request\r\nContent-Length: 0\r\nConnection: close\r\n\r\n";

pub const RESP_NOT_READY: &'static str = "HTTP/1.1 503 Service Unavailable\r\nContent-Length: 0\r\nConnection: close\r\n\r\n";

/// The decimal digits of a number below 100.
pub open spec fn number_text(n: nat) -> Seq<char> {
    if n < 10 {
        seq![(0x30 + n) as char]
    } else {
        seq![(0x30 + n / 10) as char, (0x30 + n % 10) as char]
    }
}

/// An HTTP answer: the status line, the headers `more`, the length of the body,
/// word that the connection is closed if it is, and the body.
pub open spec fn answer(status: Seq<char>, more: Seq<char>, body: Seq<char>, close: bool) -> Seq<
    char,
> {
    "HTTP/1.1 "@ + status + "\r\n"@ + more + "Content-Length: "@ + number_text(body.len())
        + "\r\n"@ + if close {
        "Connection: close\r\n"@
    } else {
        Seq::empty()
    } + "\r\n"@ + body
}

/// The verdict on a transaction with `n` frauds among its five neighbours: it is
/// approved if there are fewer than three, and its score is `n` fifths.
pub open spec fn verdict(n: nat) -> Seq<char> {
    "{\"approved\":"@ + if n < 3 {
        "true"@
    } else {
        "false"@
    } + ",\"fraud_score\":"@ + number_text(2 * n / 10) + "."@ + number_text(2 * n % 10) + "}"@
}

/// The answer with the verdict on a transaction.
pub open spec fn fraud_answer(n: nat, close: bool) -> Seq<char> {
    answer("200 OK"@, "Content-Type: application/json\r\n"@, verdict(n), close)
}

/// An answer without a body.
pub open spec fn bare_answer(status: Seq<char>, close: bool) -> Seq<char> {
    answer(status, Seq::empty(), Seq::empty(), close)
}

/// The verdicts, written out.
pub proof fn verdicts_written_out()
    ensures
        verdict(0) == "{\"approved\":true,\"fraud_score\":0.0}"@,
        verdict(1) == "{\"approved\":true,\"fraud_score\":0.2}"@,
        verdict(2) == "{\"approved\":true,\"fraud_score\":0.4}"@,
        verdict(3) == "{\"approved\":false,\"fraud_score\":0.6}"@,
        verdict(4) == "{\"approved\":false,\"fraud_score\":0.8}"@,
        verdict(5) == "{\"approved\":false,\"fraud_score\":1.0}"@,
{
    reveal_strlit("{\"approved\":");
    reveal_strlit("true");
    reveal_strlit("false");
    reveal_strlit(",\"fraud_score\":");
    reveal_strlit(".");
    reveal_strlit("}");
    reveal_strlit("{\"approved\":true,\"fraud_score\":0.0}");
    reveal_strlit("{\"approved\":true,\"fraud_score\":0.2}");
    reveal_strlit("{\"approved\":true,\"fraud_score\":0.4}");
    reveal_strlit("{\"approved\":false,\"fraud_score\":0.6}");
    reveal_strlit("{\"approved\":false,\"fraud_score\":0.8}");
    reveal_strlit("{\"approved\":false,\"fraud_score\":1.0}");
    assert(verdict(0) =~= "{\"approved\":true,\"fraud_score\":0.0}"@);
    assert(verdict(1) =~= "{\"approved\":true,\"fraud_score\":0.2}"@);
    assert(verdict(2) =~= "{\"approved\":true,\"fraud_score\":0.4}"@);
    assert(verdict(3) =~= "{\"approved\":false,\"fraud_score\":0.6}"@);
    assert(verdict(4) =~= "{\"approved\":false,\"fraud_score\":0.8}"@);
    assert(verdict(5) =~= "{\"approved\":false,\"fraud_score\":1.0}"@);
}

proof fn fraud_answers_that_keep()
    ensures
        HTTP_FRAUD_KA_0@ == fraud_answer(0, false),
        HTTP_FRAUD_KA_1@ == fraud_answer(1, false),
        HTTP_FRAUD_KA_2@ == fraud_answer(2, false),
        HTTP_FRAUD_KA_3@ == fraud_answer(3, false),
        HTTP_FRAUD_KA_4@ == fraud_answer(4, false),
        HTTP_FRAUD_KA_5@ == fraud_answer(5, false),
{
    verdicts_written_out();
    reveal_strlit("HTTP/1.1 ");
    reveal_strlit("200 OK");
    reveal_strlit("\r\n");
    reveal_strlit("Content-Type: application/json\r\n");
    reveal_strlit("Content-Length: ");
    reveal_strlit("{\"approved\":true,\"fraud_score\":0.0}");
    reveal_strlit("{\"approved\":true,\"fraud_score\":0.2}");
    reveal_strlit("{\"approved\":true,\"fraud_score\":0.4}");
    reveal_strlit("{\"approved\":false,\"fraud_score\":0.6}");
    reveal_strlit("{\"approved\":false,\"fraud_score\":0.8}");
    reveal_strlit("{\"approved\":false,\"fraud_score\":1.0}");
    reveal_strlit("HTTP/1.1 200 OK\r\nContent-Type: application/json\r\nContent-Length: 35\r\n\r\n{\"approved\":true,\"fraud_score\":0.0}");
    reveal_strlit("HTTP/1.1 200 OK\r\nContent-Type: application/json\r\nContent-Length: 35\r\n\r\n{\"approved\":true,\"fraud_score\":0.2}");
    reveal_strlit("HTTP/1.1 200 OK\r\nContent-Type: application/json\r\nContent-Length: 35\r\n\r\n{\"approved\":true,\"fraud_score\":0.4}");
    reveal_strlit("HTTP/1.1 200 OK\r\nContent-Type: application/json\r\nContent-Length: 36\r\n\r\n{\"approved\":false,\"fraud_score\":0.6}");
    reveal_strlit("HTTP/1.1 200 OK\r\nContent-Type: application/json\r\nContent-Length: 36\r\n\r\n{\"approved\":false,\"fraud_score\":0.8}");
    reveal_strlit("HTTP/1.1 200 OK\r\nContent-Type: application/json\r\nContent-Length: 36\r\n\r\n{\"approved\":false,\"fraud_score\":1.0}");
    assert(HTTP_FRAUD_KA_0@ =~= fraud_answer(0, false));
    assert(HTTP_FRAUD_KA_1@ =~= fraud_answer(1, false));
    assert(HTTP_FRAUD_KA_2@ =~= fraud_answer(2, false));
    assert(HTTP_FRAUD_KA_3@ =~= fraud_answer(3, false));
    assert(HTTP_FRAUD_KA_4@ =~= fraud_answer(4, false));
    assert(HTTP_FRAUD_KA_5@ =~= fraud_answer(5, false));
}

proof fn fraud_answers_that_close()
    ensures
        HTTP_FRAUD_CLOSE_0@ == fraud_answer(0, true),
        HTTP_FRAUD_CLOSE_1@ == fraud_answer(1, true),
        HTTP_FRAUD_CLOSE_2@ == fraud_answer(2, true),
        HTTP_FRAUD_CLOSE_3@ == fraud_answer(3, true),
        HTTP_FRAUD_CLOSE_4@ == fraud_answer(4, true),
        HTTP_FRAUD_CLOSE_5@ == fraud_answer(5, true),
{
    verdicts_written_out();
    reveal_strlit("HTTP/1.1 ");
    reveal_strlit("200 OK");
    reveal_strlit("\r\n");
    reveal_strlit("Content-Type: application/json\r\n");
    reveal_strlit("Content-Length: ");
    reveal_strlit("Connection: close\r\n");
    reveal_strlit("{\"approved\":true,\"fraud_score\":0.0}");
    reveal_strlit("{\"approved\":true,\"fraud_score\":0.2}");
    reveal_strlit("{\"approved\":true,\"fraud_score\":0.4}");
    reveal_strlit("{\"approved\":false,\"fraud_score\":0.6}");
    reveal_strlit("{\"approved\":false,\"fraud_score\":0.8}");
    reveal_strlit("{\"approved\":false,\"fraud_score\":1.0}");
    reveal_strlit("HTTP/1.1 200 OK\r\nContent-Type: application/json\r\nContent-Length: 35\r\nConnection: close\r\n\r\n{\"approved\":true,\"fraud_score\":0.0}");
    reveal_strlit("HTTP/1.1 200 OK\r\nContent-Type: application/json\r\nContent-Length: 35\r\nConnection: close\r\n\r\n{\"approved\":true,\"fraud_score\":0.2}");
    reveal_strlit("HTTP/1.1 200 OK\r\nContent-Type: application/json\r\nContent-Length: 35\r\nConnection: close\r\n\r\n{\"approved\":true,\"fraud_score\":0.4}");
    reveal_strlit("HTTP/1.1 200 OK\r\nContent-Type: application/json\r\nContent-Length: 36\r\nConnection: close\r\n\r\n{\"approved\":false,\"fraud_score\":0.6}");
    reveal_strlit("HTTP/1.1 200 OK\r\nContent-Type: application/json\r\nContent-Length: 36\r\nConnection: close\r\n\r\n{\"approved\":false,\"fraud_score\":0.8}");
    reveal_strlit("HTTP/1.1 200 OK\r\nContent-Type: application/json\r\nContent-Length: 36\r\nConnection: close\r\n\r\n{\"approved\":false,\"fraud_score\":1.0}");
    assert(HTTP_FRAUD_CLOSE_0@ =~= fraud_answer(0, true));
    assert(HTTP_FRAUD_CLOSE_1@ =~= fraud_answer(1, true));
    assert(HTTP_FRAUD_CLOSE_2@ =~= fraud_answer(2, true));
    assert(HTTP_FRAUD_CLOSE_3@ =~= fraud_answer(3, true));
    assert(HTTP_FRAUD_CLOSE_4@ =~= fraud_answer(4, true));
    assert(HTTP_FRAUD_CLOSE_5@ =~= fraud_answer(5, true));
}

/// The answers without a body, written out.
pub proof fn bare_answers()
    ensures
        RESP_READY@ == bare_answer("200 OK"@, false),
        RESP_NOT_FOUND_KA@ == bare_answer("404 Not Found"@, false),
        RESP_NOT_FOUND_CLOSE@ == bare_answer("404 Not Found"@, true),
        RESP_BAD_KA@ == bare_answer("400 Bad Request"@, false),
        RESP_BAD_CLOSE@ == bare_answer("400 Bad Request"@, true),
        RESP_NOT_READY@ == bare_answer("503 Service Unavailable"@, true),
{
    reveal_strlit("HTTP/1.1 ");
    reveal_strlit("\r\n");
    reveal_strlit("Content-Length: ");
    reveal_strlit("Connection: close\r\n");
    reveal_strlit("200 OK");
    reveal_strlit("400 Bad Request");
    reveal_strlit("404 Not Found");
    reveal_strlit("503 Service Unavailable");
    reveal_strlit("HTTP/1.1 200 OK\r\nContent-Length: 0\r\n\r\n");
    reveal_strlit("HTTP/1.1 404 Not Found\r\nContent-Length: 0\r\n\r\n");
    reveal_strlit("HTTP/1.1 404 Not Found\r\nContent-Length: 0\r\nConnection: close\r\n\r\n");
    reveal_strlit("HTTP/1.1 400 Bad Request\r\nContent-Length: 0\r\n\r\n");
    reveal_strlit("HTTP/1.1 400 Bad Request\r\nContent-Length: 0\r\nConnection: close\r\n\r\n");
    reveal_strlit("HTTP/1.1 503 Service Unavailable\r\nContent-Length: 0\r\nConnection: close\r\n\r\n");
    assert(RESP_READY@ =~= bare_answer("200 OK"@, false));
    assert(RESP_NOT_FOUND_KA@ =~= bare_answer("404 Not Found"@, false));
    assert(RESP_NOT_FOUND_CLOSE@ =~= bare_answer("404 Not Found"@, true));
    assert(RESP_BAD_KA@ =~= bare_answer("400 Bad Request"@, false));
    assert(RESP_BAD_CLOSE@ =~= bare_answer("400 Bad Request"@, true));
    assert(RESP_NOT_READY@ =~= bare_answer("503 Service Unavailable"@, true));
}

/// The answer to a request to score a transaction, with `count` frauds among
/// the neighbours; more than five are taken for five.
pub fn fraud_response(count: u8, close: bool) -> (r: &'static str)
    ensures
        r@ == fraud_answer(
            if count < 5 {
                count as nat
            } else {
                5
            },
            close,
        ),
{
    proof {
        fraud_answers_that_keep();
        fraud_answers_that_close();
    }
    if close {
        match count {
            0 => HTTP_FRAUD_CLOSE_0,
            1 => HTTP_FRAUD_CLOSE_1,
            2 => HTTP_FRAUD_CLOSE_2,
            3 => HTTP_FRAUD_CLOSE_3,
            4 => HTTP_FRAUD_CLOSE_4,
            _ => HTTP_FRAUD_CLOSE_5,
        }
    } else {
        match count {
            0 => HTTP_FRAUD_KA_0,
            1 => HTTP_FRAUD_KA_1,
            2 => HTTP_FRAUD_KA_2,
            3 => HTTP_FRAUD_KA_3,
            4 => HTTP_FRAUD_KA_4,
            _ => HTTP_FRAUD_KA_5,
        }
    }
}

/// The answer to a request to score a transaction: the verdict, or that the
/// request was bad if the transaction could not be read.
pub fn score_response(count: Option<u8>, close: bool) -> (r: &'static str)
    ensures
        match count {
            Some(n) => r@ == fraud_answer(
                if n < 5 {
                    n as nat
                } else {
                    5
                },
                close,
            ),
            None => r@ == bare_answer("400 Bad Request"@, close),
        },
{
    proof {
        bare_answers();
    }
    match count {
        Some(n) => fraud_response(n, close),
        None => if close {
            RESP_BAD_CLOSE
        } else {
            RESP_BAD_KA
        },
    }
}

/// The answer that the service is ready.
pub fn ready_response() -> (r: &'static str)
    ensures
        r@ == bare_answer("200 OK"@, false),
{
    proof {
        bare_answers();
    }
    RESP_READY
}

/// The answer that the service is not ready.
pub fn not_ready_response() -> (r: &'static str)
    ensures
        r@ == bare_answer("503 Service Unavailable"@, true),
{
    proof {
        bare_answers();
    }
    RESP_NOT_READY
}

/// The answer that there is nothing under a path.
pub fn not_found_response(close: bool) -> (r: &'static str)
    ensures
        r@ == bare_answer("404 Not Found"@, close),
{
    proof {
        bare_answers();
    }
    if close {
        RESP_NOT_FOUND_CLOSE
    } else {
        RESP_NOT_FOUND_KA
    }
}

} // verus!
