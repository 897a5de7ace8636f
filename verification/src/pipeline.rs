//! One request through the proxy: classify, short-circuit a block or
//! a redirect, otherwise consult the cache with single-flight
//! bookkeeping. The caller performs the actual upstream fetch when it
//! is told to, and reports the outcome back through [`complete`].

use vstd::prelude::*;
use crate::bytes::{copy_bytes, lower_bytes, sub_bytes, to_lower_bytes};
use crate::parse::{find_from, find_from_x};
use crate::rules::{InvalidRequestError, RequestDescriptor, Verdict, VerdictG, opt_bytes_view};
use crate::classify::{classify, verdict_of};
use crate::cache::{CacheG, FetchRole, ResponseCache, spec_begin_fetch, spec_complete_fetch};
use crate::index::CompiledIndex;

verus! {

/// The canonical fingerprint of a request: the lower-cased method, a
/// space, and the URL with its fragment stripped (query order kept).
pub open spec fn spec_cache_key(method: Seq<u8>, url: Seq<u8>) -> Seq<u8> {
    lower_bytes(method) + seq![32u8] + url.take(find_from(url, 35, 0))
}

/// Executable request fingerprint.
#[verifier::loop_isolation(false)]
pub fn cache_key(method: &Vec<u8>, url: &Vec<u8>) -> (r: Vec<u8>)
    ensures
        r@ == spec_cache_key(method@, url@),
{
    let mut r = to_lower_bytes(method);
    r.push(32u8);
    let cut = find_from_x(url, 35, 0);
    let stripped = sub_bytes(url, 0, cut);
    proof {
        assert(stripped@ =~= url@.take(cut as int));
    }
    let ghost base = r@;
    let mut i: usize = 0;
    while i < stripped.len()
        invariant
            i <= stripped@.len(),
            r@ == base + stripped@.take(i as int),
        decreases stripped@.len() - i,
    {
        r.push(stripped[i]);
        proof {
            assert(base + stripped@.take(i + 1 as int) =~= (base + stripped@.take(i as int)).push(
                stripped@[i as int]));
        }
        i = i + 1;
    }
    proof {
        assert(stripped@.take(stripped@.len() as int) == stripped@);
        assert(base + stripped@ =~= spec_cache_key(method@, url@));
    }
    r
}

/// A response to hand back to the client. The policy in `csp`, when
/// set, is to be written into a `Content-Security-Policy` header.
pub struct Response {
    pub status: u16,
    pub csp: Option<Vec<u8>>,
    pub body: Vec<u8>,
}

/// What the pipeline tells the caller to do for one request.
pub enum HandleStep {
    /// Done: send this response; no upstream contact is needed.
    Respond(Response),
    /// Serve the named local substitute resource.
    ServeRedirect(Vec<u8>),
    /// Cache miss and this caller leads: fetch upstream, then call
    /// [`complete`] with the outcome and the carried policy.
    Fetch(Vec<u8>, Option<Vec<u8>>),
    /// Cache miss with a fetch already in flight: wait for the leader
    /// to complete this key, then ask again.
    Await(Vec<u8>, Option<Vec<u8>>),
}

/// The verdict a request is treated with: a malformed descriptor
/// (empty URL) fails open to Allow.
pub open spec fn effective_verdict(rules: Seq<crate::rules::RuleG>, req: crate::rules::RequestG) -> VerdictG {
    if req.url.len() == 0 {
        VerdictG::Allow
    } else {
        verdict_of(rules, req)
    }
}

/// The policy an allowed verdict carries.
pub open spec fn verdict_csp(v: VerdictG) -> Option<Seq<u8>> {
    match v {
        VerdictG::InjectCsp(p) => Option::Some(p),
        _ => Option::None,
    }
}

pub open spec fn is_allowed(v: VerdictG) -> bool {
    v is Allow || v is InjectCsp
}

/// Drive one request up to its first decision: a blocked or cached
/// response, a redirect, or an instruction to fetch or wait.
pub fn handle(
    index: &CompiledIndex,
    cache: &mut ResponseCache,
    req: &RequestDescriptor,
    blocked_status: u16,
) -> (r: HandleStep)
    requires
        index.wf(),
        old(cache).wf(),
    ensures
        final(cache).wf(),
        ({
            let v = effective_verdict(index.rules_view(), req@);
            let key = spec_cache_key(req@.method, req@.url);
            match r {
                HandleStep::Respond(resp) => {
                    ||| (v is Block && resp.status == blocked_status && resp.body@.len() == 0
                        && resp.csp is None && final(cache)@ == old(cache)@)
                    ||| (is_allowed(v) && resp.status == 200 && opt_bytes_view(resp.csp)
                        == verdict_csp(v) && spec_begin_fetch(old(cache)@, key).1 == Option::Some(
                        Option::Some(resp.body@),
                    ) && final(cache)@ == spec_begin_fetch(old(cache)@, key).0)
                },
                HandleStep::ServeRedirect(name) => v == VerdictG::Redirect(name@) && final(cache)@
                    == old(cache)@,
                HandleStep::Fetch(key2, csp) => is_allowed(v) && key2@ == key
                    && opt_bytes_view(csp) == verdict_csp(v)
                    && spec_begin_fetch(old(cache)@, key).1 is None
                    && final(cache)@ == spec_begin_fetch(old(cache)@, key).0,
                HandleStep::Await(key2, csp) => is_allowed(v) && key2@ == key
                    && opt_bytes_view(csp) == verdict_csp(v)
                    && spec_begin_fetch(old(cache)@, key).1 == Option::Some(
                    Option::None::<Seq<u8>>,
                ) && final(cache)@ == spec_begin_fetch(old(cache)@, key).0,
            }
        }),
{
    let verdict = match classify(index, req) {
        Result::Ok(v) => v,
        Result::Err(_) => Verdict::Allow,
    };
    match verdict {
        Verdict::Block => HandleStep::Respond(
            Response { status: blocked_status, csp: Option::None, body: Vec::new() },
        ),
        Verdict::Redirect(name) => HandleStep::ServeRedirect(name),
        Verdict::Allow => {
            let key = cache_key(&req.method, &req.url);
            match cache.begin_fetch(&key) {
                FetchRole::Hit(v) => HandleStep::Respond(
                    Response { status: 200, csp: Option::None, body: v },
                ),
                FetchRole::Leader => HandleStep::Fetch(key, Option::None),
                FetchRole::Waiter => HandleStep::Await(key, Option::None),
            }
        },
        Verdict::InjectCsp(p) => {
            let key = cache_key(&req.method, &req.url);
            match cache.begin_fetch(&key) {
                FetchRole::Hit(v) => HandleStep::Respond(
                    Response { status: 200, csp: Option::Some(p), body: v },
                ),
                FetchRole::Leader => HandleStep::Fetch(key, Option::Some(p)),
                FetchRole::Waiter => HandleStep::Await(key, Option::Some(p)),
            }
        },
    }
}

/// The leader reports its fetch outcome: a success is cached and
/// becomes the response (with the carried policy); a failure is never
/// cached and surfaces as a gateway error.
pub fn complete(
    cache: &mut ResponseCache,
    key: &Vec<u8>,
    body: Option<Vec<u8>>,
    csp: Option<Vec<u8>>,
) -> (r: Response)
    requires
        old(cache).wf(),
    ensures
        final(cache).wf(),
        final(cache)@ == spec_complete_fetch(
            old(cache)@,
            key@,
            match body {
                Option::Some(b) => Option::Some(b@),
                Option::None => Option::None,
            },
        ),
        match body {
            Option::Some(b) => r.status == 200 && r.body@ == b@ && opt_bytes_view(r.csp)
                == opt_bytes_view(csp),
            Option::None => r.status == 502 && r.body@.len() == 0 && r.csp is None,
        },
{
    match body {
        Option::Some(b) => {
            cache.complete_fetch(key, Option::Some(copy_bytes(&b)));
            Response { status: 200, csp, body: b }
        },
        Option::None => {
            cache.complete_fetch(key, Option::None);
            Response { status: 502, csp: Option::None, body: Vec::new() }
        },
    }
}

} // verus!
