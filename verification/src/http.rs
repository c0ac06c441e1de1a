//! The HTTP side of the service: finding the requests in the bytes of a
//! connection and choosing their answers.
//!
//! A connection is a small state machine. Whoever owns the socket feeds it the
//! bytes that arrive and asks it for the next step until it wants more bytes.

use vstd::prelude::*;
use crate::bytes::{copy_range, push_all};
use crate::responses::{bare_answer, not_found_response, not_ready_response, ready_response};
use crate::text::{ascii, decimal, digits_end, read_decimal, same_bytes, text};

verus! {

/// The most bytes of a connection that are held.
pub const RX_CAP: usize = 8192;

/// `needle` stands in `haystack` at `i`.
pub open spec fn occurs_at(haystack: Seq<u8>, needle: Seq<u8>, i: int) -> bool {
    &&& 0 <= i
    &&& i + needle.len() <= haystack.len()
    &&& haystack.subrange(i, i + needle.len()) == needle
}

/// `needle` stands in `haystack` at `i`, and nowhere before.
pub open spec fn first_occurs_at(haystack: Seq<u8>, needle: Seq<u8>, i: int) -> bool {
    &&& occurs_at(haystack, needle, i)
    &&& forall|j: int| 0 <= j < i ==> !#[trigger] occurs_at(haystack, needle, j)
}

/// Where `needle` first stands in `haystack`.
pub open spec fn first_occurrence(haystack: Seq<u8>, needle: Seq<u8>) -> Option<int> {
    if exists|i: int| first_occurs_at(haystack, needle, i) {
        Some(choose|i: int| first_occurs_at(haystack, needle, i))
    } else {
        None
    }
}

/// Calls `memchr::memmem::find`, which returns where the first occurrence of
/// the needle starts, and nothing if there is none.
#[verifier::external_body]
fn memmem_find(haystack: &[u8], needle: &[u8]) -> (r: Option<usize>)
    ensures
        match r {
            Some(i) => first_occurs_at(haystack@, needle@, i as int),
            None => forall|i: int| !#[trigger] occurs_at(haystack@, needle@, i),
        },
{
    memchr::memmem::find(haystack, needle)
}

/// Finds where `needle` first stands in `haystack`.
fn find(haystack: &[u8], needle: &[u8]) -> (r: Option<usize>)
    ensures
        match r {
            Some(i) => first_occurrence(haystack@, needle@) == Some(i as int) && i + needle@.len()
                <= haystack@.len(),
            None => first_occurrence(haystack@, needle@) is None,
        },
{
    let r: Option<usize> = memmem_find(haystack, needle);
    proof {
        if let Some(i) = r {
            let j = choose|j: int| first_occurs_at(haystack@, needle@, j);
            assert(first_occurs_at(haystack@, needle@, j));
            assert(occurs_at(haystack@, needle@, i as int) && occurs_at(haystack@, needle@, j));
        }
    }
    r
}

/// Where the first of two spellings ends, or else the second.
pub open spec fn end_of_either(h: Seq<u8>, first: Seq<u8>, second: Seq<u8>) -> Option<int> {
    match first_occurrence(h, first) {
        Some(p) => Some(p + first.len()),
        None => match first_occurrence(h, second) {
            Some(p) => Some(p + second.len()),
            None => None,
        },
    }
}

/// Finds where the first of two spellings ends, or else the second.
fn find_end_of_either(h: &[u8], first: &[u8], second: &[u8]) -> (r: Option<usize>)
    ensures
        match r {
            Some(p) => end_of_either(h@, first@, second@) == Some(p as int) && p <= h@.len(),
            None => end_of_either(h@, first@, second@) is None,
        },
{
    let _len: usize = h.len();
    match find(h, first) {
        Some(p) => Some(p + first.len()),
        None => match find(h, second) {
            Some(p) => Some(p + second.len()),
            None => None,
        },
    }
}

/// The first position from `p` on that holds neither a space nor a tab.
pub open spec fn after_blanks(h: Seq<u8>, p: int) -> int
    decreases h.len() - p,
{
    if 0 <= p < h.len() && (h[p] == 0x20 || h[p] == 0x09) {
        after_blanks(h, p + 1)
    } else {
        p
    }
}

/// A space, a tab, a line feed, a form feed or a carriage return.
pub open spec fn is_whitespace(b: u8) -> bool {
    b == 0x20 || b == 0x09 || b == 0x0a || b == 0x0c || b == 0x0d
}

/// The first position from `p` on that holds no whitespace.
pub open spec fn after_whitespace(h: Seq<u8>, p: int) -> int
    decreases h.len() - p,
{
    if 0 <= p < h.len() && is_whitespace(h[p]) {
        after_whitespace(h, p + 1)
    } else {
        p
    }
}

/// The first position from `p` on that holds a space, or the end.
pub open spec fn next_space(h: Seq<u8>, p: int) -> int
    decreases h.len() - p,
{
    if 0 <= p < h.len() && h[p] != 0x20 {
        next_space(h, p + 1)
    } else {
        p
    }
}

/// The lower-case letter of a byte, as ASCII has it.
pub open spec fn lower(b: u8) -> int {
    if 0x41 <= b <= 0x5a {
        b + 0x20
    } else {
        b as int
    }
}

/// "close" stands at `p`, in whatever case.
pub open spec fn close_at(h: Seq<u8>, p: int) -> bool {
    &&& p + 5 <= h.len()
    &&& lower(h[p]) == 0x63
    &&& lower(h[p + 1]) == 0x6c
    &&& lower(h[p + 2]) == 0x6f
    &&& lower(h[p + 3]) == 0x73
    &&& lower(h[p + 4]) == 0x65
}

/// The headers ask to close the connection.
pub open spec fn asks_to_close(h: Seq<u8>) -> bool {
    match end_of_either(h, ascii("Connection: "@), ascii("connection: "@)) {
        Some(p) => close_at(h, after_blanks(h, p)),
        None => false,
    }
}

/// Whether the headers ask to close the connection.
pub fn has_connection_close(headers: &[u8]) -> (r: bool)
    ensures
        r == asks_to_close(headers@),
{
    proof {
        reveal_strlit("Connection: ");
        reveal_strlit("connection: ");
    }
    let len: usize = headers.len();
    match find_end_of_either(headers, text("Connection: "), text("connection: ")) {
        Some(start) => {
            let mut p: usize = start;
            while p < len && (headers[p] == 0x20 || headers[p] == 0x09)
                invariant
                    p <= len,
                    len == headers@.len(),
                    after_blanks(headers@, start as int) == after_blanks(headers@, p as int),
                decreases len - p,
            {
                p = p + 1;
            }
            p < len && len - p >= 5 && (headers[p] == 0x63 || headers[p] == 0x43) && (headers[p + 1]
                == 0x6c || headers[p + 1] == 0x4c) && (headers[p + 2] == 0x6f || headers[p + 2]
                == 0x4f) && (headers[p + 3] == 0x73 || headers[p + 3] == 0x53) && (headers[p + 4]
                == 0x65 || headers[p + 4] == 0x45)
        },
        None => false,
    }
}

/// The path that the headers ask for: what stands between the first space and
/// the second, or nothing if there is no space.
pub open spec fn path_of(h: Seq<u8>) -> Seq<u8> {
    let space = next_space(h, 0);
    if space >= h.len() {
        Seq::empty()
    } else {
        h.subrange(space + 1, next_space(h, space + 1))
    }
}

/// Finds the first space from `p` on, or the end.
fn find_space(h: &[u8], p: usize) -> (r: usize)
    requires
        p <= h@.len(),
    ensures
        r == next_space(h@, p as int),
        p <= r <= h@.len(),
{
    let mut i: usize = p;
    while i < h.len() && h[i] != 0x20
        invariant
            p <= i <= h@.len(),
            next_space(h@, p as int) == next_space(h@, i as int),
        decreases h@.len() - i,
    {
        i = i + 1;
    }
    i
}

/// Finds the path that the headers ask for.
pub fn parse_path(headers: &[u8]) -> (r: &[u8])
    ensures
        r@ == path_of(headers@),
{
    let space: usize = find_space(headers, 0);
    if space >= headers.len() {
        let none: &[u8] = &headers[0..0];
        assert(none@ =~= path_of(headers@));
        return none;
    }
    let end: usize = find_space(headers, space + 1);
    &headers[space + 1..end]
}

/// The content length that the headers give: the number behind the header's
/// name and any whitespace.
pub open spec fn content_length(h: Seq<u8>) -> Option<nat> {
    match end_of_either(h, ascii("content-length:"@), ascii("Content-Length:"@)) {
        Some(p) => {
            let start = after_whitespace(h, p);
            Some(decimal(h.subrange(start, digits_end(h, start))))
        },
        None => None,
    }
}

/// What the headers give as content length.
enum Length {
    /// Nothing.
    Absent,
    /// A number.
    Given(usize),
    /// A number that is too large.
    Huge,
}

/// Reads the content length that the headers give.
fn read_content_length(headers: &[u8]) -> (r: Length)
    ensures
        match r {
            Length::Absent => content_length(headers@) is None,
            Length::Given(v) => content_length(headers@) == Some(v as nat),
            Length::Huge => content_length(headers@) matches Some(v) && v > usize::MAX,
        },
{
    proof {
        reveal_strlit("content-length:");
        reveal_strlit("Content-Length:");
    }
    let len: usize = headers.len();
    match find_end_of_either(headers, text("content-length:"), text("Content-Length:")) {
        Some(start) => {
            let mut p: usize = start;
            while p < len && (headers[p] == 0x20 || headers[p] == 0x09 || headers[p] == 0x0a
                || headers[p] == 0x0c || headers[p] == 0x0d)
                invariant
                    p <= len,
                    len == headers@.len(),
                    after_whitespace(headers@, start as int) == after_whitespace(
                        headers@,
                        p as int,
                    ),
                decreases len - p,
            {
                p = p + 1;
            }
            match read_decimal(headers, p) {
                Some(v) => Length::Given(v),
                None => Length::Huge,
            }
        },
        None => Length::Absent,
    }
}

/// Whether the content length that the headers give can be counted.
pub fn content_length_fits(headers: &[u8]) -> (r: bool)
    ensures
        r == (content_length(headers@) matches Some(v) ==> v <= usize::MAX),
{
    match read_content_length(headers) {
        Length::Huge => false,
        _ => true,
    }
}

/// Finds the content length that the headers give.
pub fn parse_content_length(headers: &[u8]) -> (r: Option<usize>)
    requires
        content_length(headers@) matches Some(v) ==> v <= usize::MAX,
    ensures
        match r {
            Some(v) => content_length(headers@) == Some(v as nat),
            None => content_length(headers@) is None,
        },
{
    match read_content_length(headers) {
        Length::Given(v) => Some(v),
        _ => None,
    }
}

/// Where a request goes.
pub enum Route {
    Ready,
    NotReady,
    Score,
    NotFound,
}

/// Where a request for a path goes: the service says whether it runs at any
/// time, and does anything else only once it is ready.
pub open spec fn route(path: Seq<u8>, ready: bool) -> Route {
    if path == ascii("/ready"@) {
        Route::Ready
    } else if !ready {
        Route::NotReady
    } else if path == ascii("/fraud-score"@) {
        Route::Score
    } else {
        Route::NotFound
    }
}

/// Finds where a request for a path goes.
pub fn find_route(path: &[u8], ready: bool) -> (r: Route)
    ensures
        r == route(path@, ready),
{
    proof {
        reveal_strlit("/ready");
        reveal_strlit("/fraud-score");
    }
    if same_bytes(path, text("/ready")) {
        Route::Ready
    } else if !ready {
        Route::NotReady
    } else if same_bytes(path, text("/fraud-score")) {
        Route::Score
    } else {
        Route::NotFound
    }
}

/// Where the headers of the first request end.
pub open spec fn header_end(b: Seq<u8>) -> Option<int> {
    first_occurrence(b, ascii("\r\n\r\n"@))
}

/// The headers of the first request.
pub open spec fn headers_of(b: Seq<u8>) -> Seq<u8> {
    b.take(header_end(b)->0)
}

/// The length of the body of a request with these headers.
pub open spec fn body_len(h: Seq<u8>) -> nat {
    match content_length(h) {
        Some(v) => v,
        None => 0,
    }
}

/// The length of the first request.
pub open spec fn request_len(b: Seq<u8>) -> nat {
    (header_end(b)->0 + 4 + body_len(headers_of(b))) as nat
}

/// The bytes start with a whole request. Fewer than 16 bytes are not looked at.
pub open spec fn has_request(b: Seq<u8>) -> bool {
    &&& b.len() >= 16
    &&& header_end(b) is Some
    &&& request_len(b) <= b.len()
}

/// The body of the first request.
pub open spec fn body_of(b: Seq<u8>) -> Seq<u8> {
    b.subrange(header_end(b)->0 + 4, request_len(b) as int)
}

/// What is to be done next on a connection.
pub enum Step {
    /// Wait for more bytes.
    ReadMore,
    /// Close the connection.
    Close,
    /// Send an answer, and close the connection if asked to.
    Answer { response: &'static str, close: bool },
    /// Score the transaction in the body, send the answer, and close the
    /// connection if asked to.
    Score { body: Vec<u8>, close: bool },
}

/// The step that a connection takes on the bytes that it holds.
pub open spec fn is_step(b: Seq<u8>, ready: bool, step: Step) -> bool {
    if !has_request(b) {
        if b.len() < RX_CAP {
            step is ReadMore
        } else {
            step is Close
        }
    } else {
        let close = asks_to_close(headers_of(b));
        match route(path_of(headers_of(b)), ready) {
            Route::Ready => is_answer(step, bare_answer("200 OK"@, false), close),
            Route::NotReady => is_answer(
                step,
                bare_answer("503 Service Unavailable"@, true),
                close,
            ),
            Route::Score => step matches Step::Score { body, close: c } && body@ == body_of(b) && c
                == close,
            Route::NotFound => is_answer(step, bare_answer("404 Not Found"@, close), close),
        }
    }
}

/// The step is to send this answer.
pub open spec fn is_answer(step: Step, answer: Seq<char>, close: bool) -> bool {
    step matches Step::Answer { response, close: c } && response@ == answer && c == close
}

/// The bytes of a connection that were received and not answered yet.
pub struct Conn {
    bytes: Vec<u8>,
}

impl View for Conn {
    type V = Seq<u8>;

    closed spec fn view(&self) -> Seq<u8> {
        self.bytes@
    }
}

impl Conn {
    /// No more bytes are held than there is room for.
    #[verifier::type_invariant]
    spec fn fits(self) -> bool {
        self.bytes@.len() <= RX_CAP
    }

    /// A connection on which nothing was received yet.
    pub fn new() -> (r: Conn)
        ensures
            r@ == Seq::<u8>::empty(),
    {
        Conn { bytes: Vec::new() }
    }

    /// The number of bytes that there is room for.
    pub fn room(&self) -> (r: usize)
        ensures
            r == RX_CAP - self@.len(),
    {
        proof {
            use_type_invariant(self);
        }
        RX_CAP - self.bytes.len()
    }

    /// Takes in bytes that were received.
    pub fn feed(&mut self, received: &[u8])
        requires
            old(self)@.len() + received@.len() <= RX_CAP,
        ensures
            final(self)@ == old(self)@ + received@,
    {
        let mut bytes: Vec<u8> = Vec::new();
        std::mem::swap(&mut bytes, &mut self.bytes);
        push_all(&mut bytes, received);
        self.bytes = bytes;
    }

    /// Finds the next step, and lets go of the request that it answers.
    ///
    /// A connection with a request that does not fit is closed: one whose
    /// headers, or whose headers and body, are longer than there is room for.
    pub fn poll(&mut self, ready: bool) -> (r: Step)
        ensures
            is_step(old(self)@, ready, r),
            final(self)@ == if has_request(old(self)@) {
                old(self)@.skip(request_len(old(self)@) as int)
            } else {
                old(self)@
            },
    {
        let total: usize = self.bytes.len();
        proof {
            use_type_invariant(&*self);
            reveal_strlit("\r\n\r\n");
        }
        let wait: Step = if total < RX_CAP {
            Step::ReadMore
        } else {
            Step::Close
        };
        if total < 16 {
            return wait;
        }
        let end: usize = match find(self.bytes.as_slice(), text("\r\n\r\n")) {
            Some(p) => p,
            None => {
                return wait;
            },
        };
        let headers: &[u8] = &self.bytes[0..end];
        assert(headers@ =~= headers_of(self@));
        let body_len: usize = match read_content_length(headers) {
            Length::Absent => 0,
            Length::Given(v) => v,
            Length::Huge => {
                return wait;
            },
        };
        if body_len > total - (end + 4) {
            return wait;
        }
        let len: usize = end + 4 + body_len;
        let close: bool = has_connection_close(headers);
        let step: Step = match find_route(parse_path(headers), ready) {
            Route::Ready => Step::Answer { response: ready_response(), close },
            Route::NotReady => Step::Answer { response: not_ready_response(), close },
            Route::Score => Step::Score {
                body: copy_range(self.bytes.as_slice(), end + 4, len),
                close,
            },
            Route::NotFound => Step::Answer { response: not_found_response(close), close },
        };
        let rest: Vec<u8> = copy_range(self.bytes.as_slice(), len, total);
        assert(rest@ =~= self@.skip(len as int));
        self.bytes = rest;
        step
    }
}

/// What comes behind the first occurrence does not move it.
proof fn first_occurrence_stays(b: Seq<u8>, after: Seq<u8>, needle: Seq<u8>, i: int)
    requires
        first_occurs_at(b, needle, i),
    ensures
        first_occurrence(b, needle) == Some(i),
        first_occurrence(b + after, needle) == Some(i),
{
    let all = b + after;
    assert forall|j: int| 0 <= j <= i implies #[trigger] occurs_at(all, needle, j) == occurs_at(
        b,
        needle,
        j,
    ) by {
        assert(all.subrange(j, j + needle.len()) =~= b.subrange(j, j + needle.len()));
    }
    assert(first_occurs_at(all, needle, i));
    let j = choose|j: int| first_occurs_at(all, needle, j);
    assert(occurs_at(all, needle, i) && occurs_at(all, needle, j));
    let k = choose|k: int| first_occurs_at(b, needle, k);
    assert(occurs_at(b, needle, i) && occurs_at(b, needle, k));
}

/// Requests that arrive together are answered one by one: a whole request is
/// answered as it would be alone, whatever arrived behind it, and what arrived
/// behind it is held for the next answer.
pub proof fn pipelined_requests_are_answered_in_turn(
    request: Seq<u8>,
    after: Seq<u8>,
    ready: bool,
    step: Step,
)
    requires
        has_request(request),
        request_len(request) == request.len(),
    ensures
        has_request(request + after),
        (request + after).skip(request_len(request + after) as int) == after,
        is_step(request + after, ready, step) == is_step(request, ready, step),
{
    let all = request + after;
    let blank = ascii("\r\n\r\n"@);
    let i = choose|i: int| first_occurs_at(request, blank, i);
    assert(first_occurs_at(request, blank, i));
    first_occurrence_stays(request, after, blank, i);
    assert(blank.len() == 4) by {
        reveal_strlit("\r\n\r\n");
    }
    assert(headers_of(all) =~= headers_of(request));
    assert(body_of(all) =~= body_of(request));
    assert(all.skip(request.len() as int) =~= after);
}

} // verus!
