//! What a connection does with the requests on it.

use vstd::prelude::*;
use crate::balancer::upstream_of;
use crate::http::{
    after_blanks, after_whitespace, asks_to_close, body_of, content_length, first_occurrence,
    first_occurs_at, has_request, headers_of, is_step, next_space, occurs_at, path_of, request_len,
    Step,
};
use crate::laws_transactions::{digit, written, written_numbers_are_read};
use crate::responses::{bare_answer, fraud_answer, verdict, bare_answers, verdicts_written_out};
use crate::text::{ascii, digits_end, is_digit};

verus! {

/// On every route the connection is closed behind a whole request exactly if its
/// headers ask for it.
pub proof fn connections_close_when_asked(b: Seq<u8>, ready: bool, step: Step)
    requires
        has_request(b),
        is_step(b, ready, step),
    ensures
        !(step is ReadMore),
        !(step is Close),
        step matches Step::Answer { response, close } ==> close == asks_to_close(headers_of(b)),
        step matches Step::Score { body, close } ==> close == asks_to_close(headers_of(b)),
{
}

/// Without a whole request more is read, and the connection is closed once there
/// is no room for more.
pub proof fn connections_wait_for_requests(b: Seq<u8>, ready: bool, step: Step)
    requires
        !has_request(b),
        is_step(b, ready, step),
    ensures
        b.len() < 8192 ==> step is ReadMore,
        b.len() >= 8192 ==> step is Close,
{
}

/// Where requests go: `/ready` is answered at any time, anything else only once
/// the service is ready; then `/fraud-score` is scored, and nothing else is
/// found.
pub proof fn paths_are_routed(b: Seq<u8>, ready: bool, step: Step)
    requires
        has_request(b),
        is_step(b, ready, step),
    ensures
        ({
            let path = path_of(headers_of(b));
            &&& path == ascii("/ready"@) ==> (step matches Step::Answer { response, close }
                && response@ == "HTTP/1.1 200 OK\r\nContent-Length: 0\r\n\r\n"@)
            &&& path != ascii("/ready"@) && !ready ==> (step matches Step::Answer {
                response,
                close,
            } && response@
                == "HTTP/1.1 503 Service Unavailable\r\nContent-Length: 0\r\nConnection: close\r\n\r\n"@)
            &&& path == ascii("/fraud-score"@) && ready <==> step is Score
            &&& path != ascii("/ready"@) && path != ascii("/fraud-score"@) && ready ==> (
            step matches Step::Answer { response, close } && (close ==> response@
                == "HTTP/1.1 404 Not Found\r\nContent-Length: 0\r\nConnection: close\r\n\r\n"@) && (
            !close ==> response@ == "HTTP/1.1 404 Not Found\r\nContent-Length: 0\r\n\r\n"@))
        }),
{
    bare_answers();
    reveal_strlit("/ready");
    reveal_strlit("/fraud-score");
    assert(ascii("/ready"@).len() != ascii("/fraud-score"@).len());
}

/// A request to score hands over its body.
pub proof fn bodies_are_handed_over(b: Seq<u8>, ready: bool, step: Step)
    requires
        has_request(b),
        is_step(b, ready, step),
    ensures
        step matches Step::Score { body, close } ==> body@ == body_of(b),
{
}

proof fn one_first_occurrence(h: Seq<u8>, needle: Seq<u8>, i: int)
    requires
        first_occurs_at(h, needle, i),
    ensures
        first_occurrence(h, needle) == Some(i),
{
    let j = choose|j: int| first_occurs_at(h, needle, j);
    assert(first_occurs_at(h, needle, j));
    assert(occurs_at(h, needle, i) && occurs_at(h, needle, j));
}

/// Where a byte string is found it stands, and it stands nowhere before; where it
/// is not found it stands nowhere.
pub proof fn what_is_found_stands_there(h: Seq<u8>, needle: Seq<u8>)
    ensures
        first_occurrence(h, needle) matches Some(i) ==> 0 <= i && i + needle.len() <= h.len()
            && h.subrange(i, i + needle.len()) == needle && forall|j: int|
            0 <= j < i ==> #[trigger] h.subrange(j, j + needle.len()) != needle,
        first_occurrence(h, needle) is None ==> forall|j: int|
            0 <= j <= h.len() - needle.len() ==> #[trigger] h.subrange(j, j + needle.len())
                != needle,
{
    if let Some(i) = first_occurrence(h, needle) {
        assert(first_occurs_at(h, needle, i));
        assert forall|j: int| 0 <= j < i implies #[trigger] h.subrange(j, j + needle.len())
            != needle by {
            assert(!occurs_at(h, needle, j));
        }
    } else {
        assert forall|j: int| 0 <= j <= h.len() - needle.len() implies #[trigger] h.subrange(
            j,
            j + needle.len(),
        ) != needle by {
            if occurs_at(h, needle, j) {
                nothing_before_is_found(h, needle, j);
            }
        }
    }
}

proof fn nothing_before_is_found(h: Seq<u8>, needle: Seq<u8>, j: int)
    requires
        occurs_at(h, needle, j),
    ensures
        exists|i: int| first_occurs_at(h, needle, i),
    decreases j,
{
    if exists|i: int| 0 <= i < j && #[trigger] occurs_at(h, needle, i) {
        let i = choose|i: int| 0 <= i < j && #[trigger] occurs_at(h, needle, i);
        nothing_before_is_found(h, needle, i);
    } else {
        assert(first_occurs_at(h, needle, j));
    }
}

/// A request is its headers, a blank line and its body: it is whole as soon as
/// all of these are there, its body is what stands behind the blank line, and
/// what follows is not part of it.
pub proof fn requests_are_headers_and_body(
    headers: Seq<u8>,
    body: Seq<u8>,
    rest: Seq<u8>,
)
    requires
        ({
            let b = headers + ascii("\r\n\r\n"@) + body + rest;
            &&& b.len() >= 16
            &&& forall|j: int|
                0 <= j < headers.len() ==> #[trigger] b.subrange(j, j + 4) != ascii("\r\n\r\n"@)
        }),
        body.len() == match content_length(headers) {
            Some(n) => n,
            None => 0,
        },
    ensures
        ({
            let b = headers + ascii("\r\n\r\n"@) + body + rest;
            &&& has_request(b)
            &&& headers_of(b) == headers
            &&& body_of(b) == body
            &&& b.skip(request_len(b) as int) == rest
        }),
{
    reveal_strlit("\r\n\r\n");
    let blank = ascii("\r\n\r\n"@);
    let b = headers + blank + body + rest;
    let n = headers.len() as int;
    assert(b.subrange(n, n + 4) =~= blank);
    assert(occurs_at(b, blank, n));
    assert forall|j: int| 0 <= j < n implies !#[trigger] occurs_at(b, blank, j) by {
        assert(b.subrange(j, j + 4) != blank);
    }
    assert(first_occurs_at(b, blank, n));
    one_first_occurrence(b, blank, n);
    assert(headers_of(b) =~= headers);
    assert(body_of(b) =~= body);
    assert(b.skip(request_len(b) as int) =~= rest);
}

/// A request whose body is not all there is not whole.
pub proof fn short_bodies_are_waited_for(headers: Seq<u8>, body: Seq<u8>)
    requires
        ({
            let b = headers + ascii("\r\n\r\n"@) + body;
            forall|j: int|
                0 <= j < headers.len() ==> #[trigger] b.subrange(j, j + 4) != ascii("\r\n\r\n"@)
        }),
        content_length(headers) matches Some(n) && n > body.len(),
    ensures
        !has_request(headers + ascii("\r\n\r\n"@) + body),
{
    reveal_strlit("\r\n\r\n");
    let blank = ascii("\r\n\r\n"@);
    let b = headers + blank + body;
    let n = headers.len() as int;
    assert(b.subrange(n, n + 4) =~= blank);
    assert(occurs_at(b, blank, n));
    assert forall|j: int| 0 <= j < n implies !#[trigger] occurs_at(b, blank, j) by {
        assert(b.subrange(j, j + 4) != blank);
    }
    assert(first_occurs_at(b, blank, n));
    one_first_occurrence(b, blank, n);
    assert(headers_of(b) =~= headers);
}

proof fn space_is_found(h: Seq<u8>, p: int, q: int)
    requires
        0 <= p <= q <= h.len(),
        forall|i: int| p <= i < q ==> h[i] != 0x20,
        q < h.len() ==> h[q] == 0x20,
    ensures
        next_space(h, p) == q,
    decreases q - p,
{
    if p < q {
        space_is_found(h, p + 1, q);
    }
}

/// The path is what stands between the first two spaces of the headers.
pub proof fn paths_stand_between_spaces(method: Seq<u8>, path: Seq<u8>, rest: Seq<u8>)
    requires
        forall|i: int| 0 <= i < method.len() ==> method[i] != 32,
        forall|i: int| 0 <= i < path.len() ==> path[i] != 32,
    ensures
        path_of(method + seq![32u8] + path + seq![32u8] + rest) == path,
        path_of(method + seq![32u8] + path) == path,
        path_of(method).len() == 0,
{
    let m = method.len() as int;
    let n = path.len() as int;
    let h = method + seq![32u8] + path + seq![32u8] + rest;
    assert(h[m] == 32 && h[m + 1 + n] == 32);
    assert(forall|i: int| 0 <= i < m ==> h[i] == method[i]);
    assert(forall|i: int| m + 1 <= i < m + 1 + n ==> h[i] == path[i - m - 1]);
    space_is_found(h, 0, m);
    space_is_found(h, m + 1, m + 1 + n);
    assert(path_of(h) =~= path);
    let g = method + seq![32u8] + path;
    assert(g[m] == 32);
    assert(forall|i: int| 0 <= i < m ==> g[i] == method[i]);
    assert(forall|i: int| m + 1 <= i < m + 1 + n ==> g[i] == path[i - m - 1]);
    space_is_found(g, 0, m);
    space_is_found(g, m + 1, m + 1 + n);
    assert(path_of(g) =~= path);
    space_is_found(method, 0, m);
}

/// The byte is a letter, in whatever case: the lower-case one or 32 below it.
pub open spec fn is_letter(b: u8, small: int) -> bool {
    b == small || b == small - 32
}

/// "close" stands at `p`, in whatever case.
pub open spec fn says_close(h: Seq<u8>, p: int) -> bool {
    &&& p + 5 <= h.len()
    &&& is_letter(h[p], 99)
    &&& is_letter(h[p + 1], 108)
    &&& is_letter(h[p + 2], 111)
    &&& is_letter(h[p + 3], 115)
    &&& is_letter(h[p + 4], 101)
}

proof fn blanks_are_skipped(h: Seq<u8>, p: int, q: int)
    requires
        0 <= p <= q <= h.len(),
        forall|i: int| p <= i < q ==> h[i] == 32 || h[i] == 9,
        q < h.len() ==> h[q] != 32 && h[q] != 9,
    ensures
        after_blanks(h, p) == q,
    decreases q - p,
{
    if p < q {
        blanks_are_skipped(h, p + 1, q);
    }
}

/// The first header of that name, in one of its two spellings, decides: it asks
/// to close the connection exactly if "close" follows it, in whatever case and
/// behind any blanks. `q` is where the blanks end.
pub proof fn close_is_asked_for_by_name(h: Seq<u8>, at: int, q: int)
    requires
        first_occurs_at(h, ascii("Connection: "@), at) || (first_occurs_at(
            h,
            ascii("connection: "@),
            at,
        ) && first_occurrence(h, ascii("Connection: "@)) is None),
        at + 12 <= q <= h.len(),
        forall|i: int| at + 12 <= i < q ==> h[i] == 32 || h[i] == 9,
        q < h.len() ==> h[q] != 32 && h[q] != 9,
    ensures
        asks_to_close(h) <==> says_close(h, q),
{
    reveal_strlit("Connection: ");
    reveal_strlit("connection: ");
    let name = ascii("Connection: "@);
    let small = ascii("connection: "@);
    if first_occurs_at(h, name, at) {
        one_first_occurrence(h, name, at);
    } else {
        one_first_occurrence(h, small, at);
    }
    blanks_are_skipped(h, at + 12, q);
}

/// Headers without such a header do not ask to close the connection.
pub proof fn close_is_not_asked_for_without_name(h: Seq<u8>)
    requires
        first_occurrence(h, ascii("Connection: "@)) is None,
        first_occurrence(h, ascii("connection: "@)) is None,
    ensures
        !asks_to_close(h),
{
}

proof fn whitespace_is_skipped(h: Seq<u8>, p: int, q: int)
    requires
        0 <= p <= q <= h.len(),
        forall|i: int|
            p <= i < q ==> h[i] == 32 || h[i] == 9 || h[i] == 10 || h[i] == 12 || h[i] == 13,
        q < h.len() ==> h[q] != 32 && h[q] != 9 && h[q] != 10 && h[q] != 12 && h[q] != 13,
    ensures
        after_whitespace(h, p) == q,
    decreases q - p,
{
    if p < q {
        whitespace_is_skipped(h, p + 1, q);
    }
}

proof fn digits_are_followed(h: Seq<u8>, p: int, q: int)
    requires
        0 <= p <= q <= h.len(),
        forall|i: int| p <= i < q ==> is_digit(#[trigger] h[i]),
        q < h.len() ==> !is_digit(h[q]),
    ensures
        digits_end(h, p) == q,
    decreases q - p,
{
    if p < q {
        assert(is_digit(h[p]));
        digits_are_followed(h, p + 1, q);
    }
}

/// The length of the body is the number that is written behind the first header
/// of that name, in one of its two spellings and behind any whitespace. `q` is
/// where the whitespace ends.
pub proof fn content_lengths_are_read(h: Seq<u8>, at: int, q: int, n: nat)
    requires
        first_occurs_at(h, ascii("content-length:"@), at) || (first_occurs_at(
            h,
            ascii("Content-Length:"@),
            at,
        ) && first_occurrence(h, ascii("content-length:"@)) is None),
        at + 15 <= q,
        q + written(n).len() <= h.len(),
        forall|i: int|
            at + 15 <= i < q ==> h[i] == 32 || h[i] == 9 || h[i] == 10 || h[i] == 12 || h[i] == 13,
        h.subrange(q, q + written(n).len()) == written(n),
        q + written(n).len() < h.len() ==> !digit(h[q + written(n).len()]),
    ensures
        content_length(h) == Some(n),
{
    reveal_strlit("content-length:");
    reveal_strlit("Content-Length:");
    let small = ascii("content-length:"@);
    let name = ascii("Content-Length:"@);
    if first_occurs_at(h, small, at) {
        one_first_occurrence(h, small, at);
    } else {
        one_first_occurrence(h, name, at);
    }
    written_numbers_are_read(n);
    let w = written(n);
    let end = q + w.len();
    assert(w.len() > 0);
    assert forall|i: int| q <= i < end implies is_digit(#[trigger] h[i]) by {
        assert(h.subrange(q, end)[i - q] == h[i]);
        assert(is_digit(w[i - q]));
    }
    assert(is_digit(h[q]));
    whitespace_is_skipped(h, at + 15, q);
    digits_are_followed(h, q, end);
}

/// Headers without such a header give no length.
pub proof fn content_lengths_are_absent_without_name(h: Seq<u8>)
    requires
        first_occurrence(h, ascii("Content-Length:"@)) is None,
        first_occurrence(h, ascii("content-length:"@)) is None,
    ensures
        content_length(h) is None,
{
}

/// A transaction is approved exactly if fewer than three of its five neighbours
/// are frauds, and its score is as many fifths.
pub proof fn verdicts_go_by_the_count(n: nat, close: bool)
    requires
        n <= 5,
    ensures
        n == 0 ==> verdict(n) == "{\"approved\":true,\"fraud_score\":0.0}"@,
        n == 1 ==> verdict(n) == "{\"approved\":true,\"fraud_score\":0.2}"@,
        n == 2 ==> verdict(n) == "{\"approved\":true,\"fraud_score\":0.4}"@,
        n == 3 ==> verdict(n) == "{\"approved\":false,\"fraud_score\":0.6}"@,
        n == 4 ==> verdict(n) == "{\"approved\":false,\"fraud_score\":0.8}"@,
        n == 5 ==> verdict(n) == "{\"approved\":false,\"fraud_score\":1.0}"@,
        ({
            let head = if n < 3 {
                "HTTP/1.1 200 OK\r\nContent-Type: application/json\r\nContent-Length: 35\r\n"@
            } else {
                "HTTP/1.1 200 OK\r\nContent-Type: application/json\r\nContent-Length: 36\r\n"@
            };
            let last = if close {
                "Connection: close\r\n\r\n"@
            } else {
                "\r\n"@
            };
            fraud_answer(n, close) == head + last + verdict(n)
        }),
{
    verdicts_written_out();
    reveal_strlit("{\"approved\":true,\"fraud_score\":0.0}");
    reveal_strlit("{\"approved\":true,\"fraud_score\":0.2}");
    reveal_strlit("{\"approved\":true,\"fraud_score\":0.4}");
    reveal_strlit("{\"approved\":false,\"fraud_score\":0.6}");
    reveal_strlit("{\"approved\":false,\"fraud_score\":0.8}");
    reveal_strlit("{\"approved\":false,\"fraud_score\":1.0}");
    reveal_strlit("HTTP/1.1 ");
    reveal_strlit("200 OK");
    reveal_strlit("\r\n");
    reveal_strlit("Content-Type: application/json\r\n");
    reveal_strlit("Content-Length: ");
    reveal_strlit("Connection: close\r\n");
    reveal_strlit("Connection: close\r\n\r\n");
    reveal_strlit("HTTP/1.1 200 OK\r\nContent-Type: application/json\r\nContent-Length: 35\r\n");
    reveal_strlit("HTTP/1.1 200 OK\r\nContent-Type: application/json\r\nContent-Length: 36\r\n");
    let head = if n < 3 {
        "HTTP/1.1 200 OK\r\nContent-Type: application/json\r\nContent-Length: 35\r\n"@
    } else {
        "HTTP/1.1 200 OK\r\nContent-Type: application/json\r\nContent-Length: 36\r\n"@
    };
    let last = if close {
        "Connection: close\r\n\r\n"@
    } else {
        "\r\n"@
    };
    assert(verdict(n).len() == if n < 3 {
        35nat
    } else {
        36nat
    });
    assert(fraud_answer(n, close) =~= head + last + verdict(n));
}

/// A bad request is answered so, with word of the connection if it is closed.
pub proof fn bad_requests_are_answered_so()
    ensures
        bare_answer("400 Bad Request"@, false)
            == "HTTP/1.1 400 Bad Request\r\nContent-Length: 0\r\n\r\n"@,
        bare_answer("400 Bad Request"@, true)
            == "HTTP/1.1 400 Bad Request\r\nContent-Length: 0\r\nConnection: close\r\n\r\n"@,
{
    bare_answers();
}

/// The first connection goes to the first upstream, and each later one to the
/// next, with the first behind the last.
pub proof fn upstreams_are_taken_in_turn(counter: nat, upstreams: nat)
    requires
        upstreams > 0,
    ensures
        upstream_of(0, upstreams) == 0,
        upstream_of(counter, upstreams) < upstreams,
        upstream_of(counter, upstreams) + 1 < upstreams ==> upstream_of(counter + 1, upstreams)
            == upstream_of(counter, upstreams) + 1,
        upstream_of(counter, upstreams) + 1 == upstreams ==> upstream_of(counter + 1, upstreams)
            == 0,
{
    let n = upstreams as int;
    let c = counter as int;
    vstd::arithmetic::div_mod::lemma_fundamental_div_mod(c, n);
    let q = c / n;
    let r = c % n;
    vstd::arithmetic::div_mod::lemma_small_mod(0, upstreams);
    if r + 1 < n {
        vstd::arithmetic::div_mod::lemma_fundamental_div_mod_converse(c + 1, n, q, r + 1);
    } else {
        assert(c + 1 == (q + 1) * n) by (nonlinear_arith)
            requires
                c == n * q + r,
                r + 1 == n,
        ;
        vstd::arithmetic::div_mod::lemma_fundamental_div_mod_converse(c + 1, n, q + 1, 0);
    }
}

/// Fewer than sixteen bytes, or bytes without a blank line, hold no request.
pub proof fn requests_end_with_a_blank_line(b: Seq<u8>)
    ensures
        b.len() < 16 ==> !has_request(b),
        (forall|j: int|
            0 <= j <= b.len() - 4 ==> #[trigger] b.subrange(j, j + 4) != ascii("\r\n\r\n"@))
            ==> !has_request(b),
{
    reveal_strlit("\r\n\r\n");
    let blank = ascii("\r\n\r\n"@);
    what_is_found_stands_there(b, blank);
}

/// An upstream that cannot be reached is answered so.
pub proof fn missing_upstreams_are_answered_so()
    ensures
        bare_answer("503 Service Unavailable"@, false)
            == "HTTP/1.1 503 Service Unavailable\r\nContent-Length: 0\r\n\r\n"@,
{
    reveal_strlit("HTTP/1.1 503 Service Unavailable\r\nContent-Length: 0\r\n\r\n");
    reveal_strlit("HTTP/1.1 ");
    reveal_strlit("503 Service Unavailable");
    reveal_strlit("\r\n");
    reveal_strlit("Content-Length: ");
    assert(bare_answer("503 Service Unavailable"@, false)
        =~= "HTTP/1.1 503 Service Unavailable\r\nContent-Length: 0\r\n\r\n"@);
}

} // verus!
