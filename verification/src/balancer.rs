//! The load balancer: which upstream a connection goes to.

use vstd::prelude::*;
use crate::responses::bare_answer;

verus! {

/// The upstream that connection number `counter` goes to.
pub open spec fn upstream_of(counter: nat, upstreams: nat) -> nat
    recommends
        upstreams > 0,
{
    counter % upstreams
}

/// Finds the upstream that connection number `counter` goes to.
pub fn pick_upstream(counter: usize, upstreams: usize) -> (r: usize)
    requires
        upstreams > 0,
    ensures
        r == upstream_of(counter as nat, upstreams as nat),
        r < upstreams,
{
    counter % upstreams
}

/// Connections go round the upstreams: of as many connections in a row as there
/// are upstreams no two go to the same one, and then it starts over.
pub proof fn connections_go_round(counter: nat, upstreams: nat, i: nat, j: nat)
    requires
        i < j < upstreams,
    ensures
        upstream_of(counter + i, upstreams) != upstream_of(counter + j, upstreams),
        upstream_of(counter + upstreams, upstreams) == upstream_of(counter, upstreams),
{
    let n = upstreams as int;
    let c = counter as int;
    vstd::arithmetic::div_mod::lemma_mod_add_multiples_vanish(c, n);
    if upstream_of(counter + i, upstreams) == upstream_of(counter + j, upstreams) {
        let a = c + i;
        let b = c + j;
        vstd::arithmetic::div_mod::lemma_fundamental_div_mod(a, n);
        vstd::arithmetic::div_mod::lemma_fundamental_div_mod(b, n);
        let q = b / n - a / n;
        assert(b - a == n * (b / n) - n * (a / n));
        assert(n * (b / n) - n * (a / n) == n * q) by (nonlinear_arith)
            requires
                q == b / n - a / n,
        ;
        assert(0 < n * q < n);
        assert(false) by (nonlinear_arith)
            requires
                0 < n * q < n,
                n > 0,
        ;
    }
}

/// The answer when an upstream cannot be reached.
pub const RESP_NO_UPSTREAM: &'static str = "HTTP/1.1 503 Service Unavailable\r\nContent-Length: 0\r\n\r\n";

/// The answer when an upstream cannot be reached.
pub fn no_upstream_response() -> (r: &'static str)
    ensures
        r@ == bare_answer("503 Service Unavailable"@, false),
{
    proof {
        reveal_strlit("HTTP/1.1 503 Service Unavailable\r\nContent-Length: 0\r\n\r\n");
        reveal_strlit("HTTP/1.1 ");
        reveal_strlit("503 Service Unavailable");
        reveal_strlit("\r\n");
        reveal_strlit("Content-Length: ");
        assert(RESP_NO_UPSTREAM@ =~= bare_answer("503 Service Unavailable"@, false));
    }
    RESP_NO_UPSTREAM
}

} // verus!
