use vstd::prelude::*;

verus! {

/// How many responses the orchestration layer's HTTP loop will look at for
/// one request before it gives up on redirects.
pub const MAX_HTTP_HOPS: u32 = 10;

/// What the HTTP fetch loop does after seeing one response status.
#[derive(Clone, Copy, Debug, PartialEq, Eq, Structural)]
pub enum HttpStep {
    /// A success status: the response is the result.
    Done,
    /// A redirection status: follow the Location header; `to_get` says the
    /// method must be rewritten to GET first.
    Redirect { to_get: bool },
    /// Any other status is fatal.
    Fail,
}

/// Decision for one HTTP response: 2xx succeeds, 3xx redirects (303 See
/// Other additionally rewrites the method to GET), everything else fails.
pub fn http_step(status: u16) -> (r: HttpStep)
    ensures
        r == (if 200 <= status < 300 {
            HttpStep::Done
        } else if 300 <= status < 400 {
            (HttpStep::Redirect { to_get: status == 303 })
        } else {
            HttpStep::Fail
        }),
{
    if 200 <= status && status < 300 {
        HttpStep::Done
    } else if 300 <= status && status < 400 {
        HttpStep::Redirect { to_get: status == 303 }
    } else {
        HttpStep::Fail
    }
}

} // verus!
