//! Request classification: which rules apply to a request, and the
//! verdict precedence.
//!
//! Precedence, highest first: an `important` blocking rule always
//! wins; otherwise any exception rule yields Allow; otherwise the best
//! redirect rule; otherwise any blocking rule; otherwise the applicable
//! CSP policies concatenate; otherwise Allow. Ties inside a category go
//! to the most specific (longest) pattern, then to the higher id.

use vstd::prelude::*;
use vstd::pervasive::VecAdditionalExecFns;
use crate::bytes::{bytes_eq, contains_u64, copy_bytes, fnv64, fnv64_bytes, lower_bytes, sub_bytes, to_lower_bytes};
use crate::rules::{
    FilterRule,
    InvalidRequestError,
    PartyFilter,
    RequestDescriptor,
    RequestG,
    ResourceType,
    RuleG,
    TypeMask,
    Verdict,
    VerdictG,
};
use crate::matching::{
    find_scheme_end,
    find_segs_key,
    host_end_from,
    lemma_pattern_key_occurs,
    lemma_scheme_end_bounds,
    pack4,
    pattern_matches,
    pattern_matches_g,
    scheme_end_x,
    host_end_x,
    url_window,
};
use crate::index::CompiledIndex;

verus! {

/// Whether the rule's type bits admit the request's resource type.
/// No bit set means any type.
pub open spec fn type_ok(t: TypeMask, rt: ResourceType) -> bool {
    if !t.document && !t.script && !t.image && !t.stylesheet && !t.xhr && !t.other {
        true
    } else {
        match rt {
            ResourceType::Document => t.document,
            ResourceType::Script => t.script,
            ResourceType::Image => t.image,
            ResourceType::Stylesheet => t.stylesheet,
            ResourceType::Xhr => t.xhr,
            ResourceType::Other => t.other,
        }
    }
}

/// The host part of an absolute URL (empty without a scheme).
pub open spec fn url_host(url: Seq<u8>) -> Seq<u8> {
    match find_scheme_end(url, 0) {
        Option::None => Seq::empty(),
        Option::Some(se) => url.subrange(se, host_end_from(url, se)),
    }
}

/// Two lower-cased domains are the same party when equal or when one
/// is a dot-separated subdomain of the other.
pub open spec fn same_party(host: Seq<u8>, init: Seq<u8>) -> bool {
    ||| host == init
    ||| (host.len() > init.len() && host.skip(host.len() - init.len()) == init && host[host.len()
        - init.len() - 1] == 46)
    ||| (init.len() > host.len() && init.skip(init.len() - host.len()) == host && init[init.len()
        - host.len() - 1] == 46)
}

/// A request is third-party when it has an initiator document and the
/// requested host is not the same party as the initiator domain.
pub open spec fn is_third_party(req: RequestG) -> bool {
    let host = url_host(lower_bytes(req.url));
    let init = lower_bytes(req.initiator_domain);
    init.len() > 0 && !same_party(host, init)
}

pub open spec fn party_ok(p: PartyFilter, req: RequestG) -> bool {
    match p {
        PartyFilter::Any => true,
        PartyFilter::ThirdOnly => is_third_party(req),
        PartyFilter::FirstOnly => !is_third_party(req),
    }
}

/// The lower-cased domain, or a dot-suffix of it, hashes into the set.
pub open spec fn domain_match_set(dom: Seq<u8>, set: Seq<u64>) -> bool {
    exists|q: int|
        #![trigger dom.skip(q)]
        0 <= q < dom.len() && (q == 0 || dom[q - 1] == 46) && set.contains(fnv64(dom.skip(q)))
}

/// Domain constraints of a rule against the lower-cased initiator.
pub open spec fn domains_ok(r: RuleG, init_lower: Seq<u8>) -> bool {
    &&& !domain_match_set(init_lower, r.excluded_domains)
    &&& (r.included_domains.len() == 0 || domain_match_set(init_lower, r.included_domains))
}

/// The URL variant a rule matches against: raw for `match-case`
/// rules, lower-cased otherwise.
pub open spec fn match_url_of(r: RuleG, req: RequestG) -> Seq<u8> {
    if r.mask.match_case {
        req.url
    } else {
        lower_bytes(req.url)
    }
}

/// The rule applies to the request: type, party and domain
/// constraints hold and the pattern matches the URL.
pub open spec fn rule_applies(r: RuleG, req: RequestG) -> bool {
    &&& type_ok(r.mask.types, req.resource_type)
    &&& party_ok(r.mask.party, req)
    &&& domains_ok(r, lower_bytes(req.initiator_domain))
    &&& pattern_matches_g(r.pattern, match_url_of(r, req))
}

/// Rule categories. A rule is an exception, a redirect, a CSP
/// injection, or a plain blocking rule, in that order of recognition.
pub open spec fn is_exception(r: RuleG) -> bool {
    r.mask.exception
}

pub open spec fn is_redirect(r: RuleG) -> bool {
    !r.mask.exception && r.redirect_resource is Some
}

pub open spec fn is_csp(r: RuleG) -> bool {
    !r.mask.exception && r.redirect_resource is None && r.content_security_policy is Some
}

pub open spec fn is_blocking(r: RuleG) -> bool {
    !r.mask.exception && r.redirect_resource is None && r.content_security_policy is None
}

/// An applicable `important` blocking rule among the first `n`.
pub open spec fn some_important_block_upto(rules: Seq<RuleG>, req: RequestG, n: int) -> bool {
    exists|j: int|
        #![trigger rules[j]]
        0 <= j < n && rule_applies(rules[j], req) && is_blocking(rules[j]) && rules[j].mask.important
}

/// An applicable exception rule among the first `n`.
pub open spec fn some_exception_upto(rules: Seq<RuleG>, req: RequestG, n: int) -> bool {
    exists|j: int|
        #![trigger rules[j]]
        0 <= j < n && rule_applies(rules[j], req) && is_exception(rules[j])
}

/// An applicable blocking rule among the first `n`.
pub open spec fn some_block_upto(rules: Seq<RuleG>, req: RequestG, n: int) -> bool {
    exists|j: int|
        #![trigger rules[j]]
        0 <= j < n && rule_applies(rules[j], req) && is_blocking(rules[j])
}

/// An applicable CSP rule among the first `n`.
pub open spec fn some_csp_upto(rules: Seq<RuleG>, req: RequestG, n: int) -> bool {
    exists|j: int|
        #![trigger rules[j]]
        0 <= j < n && rule_applies(rules[j], req) && is_csp(rules[j])
}

/// The first rule beats the second in a tie: more specific, or the
/// higher id at equal specificity.
pub open spec fn beats(a: RuleG, b: RuleG) -> bool {
    a.specificity > b.specificity || (a.specificity == b.specificity && a.id > b.id)
}

/// The best applicable redirect rule among the first `n`.
pub open spec fn best_redirect_upto(rules: Seq<RuleG>, req: RequestG, n: int) -> Option<RuleG>
    decreases n,
    when 0 <= n <= rules.len()
{
    if n == 0 {
        Option::None
    } else {
        let prev = best_redirect_upto(rules, req, n - 1);
        let r = rules[n - 1];
        if rule_applies(r, req) && is_redirect(r) {
            match prev {
                Option::None => Option::Some(r),
                Option::Some(p) => if beats(r, p) {
                    Option::Some(r)
                } else {
                    Option::Some(p)
                },
            }
        } else {
            prev
        }
    }
}

/// The applicable CSP policies among the first `n`, concatenated in
/// arena order, separated by `, `.
pub open spec fn csp_concat_upto(rules: Seq<RuleG>, req: RequestG, n: int) -> Seq<u8>
    decreases n,
    when 0 <= n <= rules.len()
{
    if n == 0 {
        Seq::empty()
    } else {
        let pre = csp_concat_upto(rules, req, n - 1);
        let r = rules[n - 1];
        if rule_applies(r, req) && is_csp(r) {
            if pre.len() == 0 {
                r.content_security_policy->Some_0
            } else {
                pre + seq![44u8, 32u8] + r.content_security_policy->Some_0
            }
        } else {
            pre
        }
    }
}

/// The verdict for a request against a rule set, by precedence.
pub open spec fn verdict_of(rules: Seq<RuleG>, req: RequestG) -> VerdictG {
    let n = rules.len() as int;
    if some_important_block_upto(rules, req, n) {
        VerdictG::Block
    } else if some_exception_upto(rules, req, n) {
        VerdictG::Allow
    } else {
        match best_redirect_upto(rules, req, n) {
            Option::Some(r) => VerdictG::Redirect(r.redirect_resource->Some_0),
            Option::None => {
                if some_block_upto(rules, req, n) {
                    VerdictG::Block
                } else if some_csp_upto(rules, req, n) {
                    VerdictG::InjectCsp(csp_concat_upto(rules, req, n))
                } else {
                    VerdictG::Allow
                }
            },
        }
    }
}

/// Executable same-party test on lower-cased domains.
pub fn same_party_x(host: &Vec<u8>, init: &Vec<u8>) -> (r: bool)
    ensures
        r == same_party(host@, init@),
{
    if bytes_eq(host, init) {
        return true;
    }
    if host.len() > init.len() {
        let off = host.len() - init.len();
        let suff = sub_bytes(host, off, host.len());
        proof {
            assert(suff@ =~= host@.skip(off as int));
        }
        if bytes_eq(&suff, init) && host[off - 1] == 46 {
            return true;
        }
    }
    if init.len() > host.len() {
        let off = init.len() - host.len();
        let suff = sub_bytes(init, off, init.len());
        proof {
            assert(suff@ =~= init@.skip(off as int));
        }
        if bytes_eq(&suff, host) && init[off - 1] == 46 {
            return true;
        }
    }
    false
}

/// Executable host extraction from a lower-cased URL.
pub fn url_host_x(url: &Vec<u8>) -> (h: Vec<u8>)
    ensures
        h@ == url_host(url@),
{
    match scheme_end_x(url) {
        Option::None => {
            let h: Vec<u8> = Vec::new();
            proof {
                assert(h@ =~= url_host(url@));
            }
            h
        },
        Option::Some(se) => {
            proof {
                lemma_scheme_end_bounds(url@, 0, se as int);
            }
            let he = host_end_x(url, se);
            sub_bytes(url, se, he)
        },
    }
}

/// Executable domain-set membership for the lower-cased initiator.
#[verifier::loop_isolation(false)]
pub fn domain_match_x(dom: &Vec<u8>, set: &Vec<u64>) -> (r: bool)
    ensures
        r == domain_match_set(dom@, set@),
{
    let mut q: usize = 0;
    while q < dom.len()
        invariant
            q <= dom@.len(),
            forall|p: int|
                0 <= p < q ==> !((p == 0 || dom@[p - 1] == 46) && set@.contains(
                    fnv64(#[trigger] dom@.skip(p)))),
        decreases dom@.len() - q,
    {
        if q == 0 || dom[q - 1] == 46 {
            let suffix = sub_bytes(dom, q, dom.len());
            proof {
                assert(suffix@ =~= dom@.skip(q as int));
            }
            let h = fnv64_bytes(&suffix);
            if contains_u64(set, h) {
                proof {
                    assert((q as int == 0 || dom@[q as int - 1] == 46) && set@.contains(
                        fnv64(dom@.skip(q as int))));
                }
                return true;
            }
        }
        q = q + 1;
    }
    proof {
        if domain_match_set(dom@, set@) {
            let p = choose|p: int|
                #![trigger dom@.skip(p)]
                0 <= p < dom@.len() && (p == 0 || dom@[p - 1] == 46) && set@.contains(
                    fnv64(dom@.skip(p)));
            assert(false);
        }
    }
    false
}

/// Executable applicability test for one rule, over precomputed
/// lower-cased inputs and party bit.
pub fn rule_applies_x(
    rule: &FilterRule,
    req: &RequestDescriptor,
    url_lower: &Vec<u8>,
    init_lower: &Vec<u8>,
    third: bool,
) -> (r: bool)
    requires
        url_lower@ == lower_bytes(req@.url),
        init_lower@ == lower_bytes(req@.initiator_domain),
        third == is_third_party(req@),
    ensures
        r == rule_applies(rule@, req@),
{
    let tm = rule.mask.types;
    let any = !(tm.document || tm.script || tm.image || tm.stylesheet || tm.xhr || tm.other);
    let tok = any || match req.resource_type {
        ResourceType::Document => tm.document,
        ResourceType::Script => tm.script,
        ResourceType::Image => tm.image,
        ResourceType::Stylesheet => tm.stylesheet,
        ResourceType::Xhr => tm.xhr,
        ResourceType::Other => tm.other,
    };
    if !tok {
        return false;
    }
    let pok = match rule.mask.party {
        PartyFilter::Any => true,
        PartyFilter::ThirdOnly => third,
        PartyFilter::FirstOnly => !third,
    };
    if !pok {
        return false;
    }
    if domain_match_x(init_lower, &rule.excluded_domains) {
        return false;
    }
    if rule.included_domains.len() > 0 && !domain_match_x(init_lower, &rule.included_domains) {
        return false;
    }
    if rule.mask.match_case {
        pattern_matches(&rule.pattern, &req.url)
    } else {
        pattern_matches(&rule.pattern, url_lower)
    }
}

/// Mark every rule in the buckets keyed by a four-byte window of this
/// URL variant. Marks only grow.
#[verifier::loop_isolation(false)]
fn mark_windows(cand: &mut Vec<bool>, index: &CompiledIndex, url: &Vec<u8>)
    requires
        index.wf(),
        old(cand)@.len() == index.rules@.len(),
    ensures
        final(cand)@.len() == index.rules@.len(),
        forall|t: int| 0 <= t < old(cand)@.len() && old(cand)@[t] ==> final(cand)@[t],
        forall|q: int, i: usize|
            #![trigger index.buckets@[url_window(url@, q)]@.contains(i)]
            0 <= q && q + 4 <= url@.len() && index.buckets@.contains_key(url_window(url@, q))
                && index.buckets@[url_window(url@, q)]@.contains(i) ==> final(cand)@[i as int],
{
    if url.len() < 4 {
        return ;
    }
    let mut q: usize = 0;
    let last = url.len() - 4;
    while q <= last
        invariant
            q <= last + 1,
            last == url@.len() - 4,
            cand@.len() == index.rules@.len(),
            forall|t: int| 0 <= t < old(cand)@.len() && old(cand)@[t] ==> cand@[t],
            forall|p: int, i: usize|
                #![trigger index.buckets@[url_window(url@, p)]@.contains(i)]
                0 <= p < q && index.buckets@.contains_key(url_window(url@, p))
                    && index.buckets@[url_window(url@, p)]@.contains(i) ==> cand@[i as int],
        decreases last + 1 - q,
    {
        let k = pack4(url[q], url[q + 1], url[q + 2], url[q + 3]);
        proof {
            assert(k == url_window(url@, q as int));
        }
        match index.buckets.get(&k) {
            Option::None => {},
            Option::Some(v) => {
                let ghost cb = cand@;
                let mut j: usize = 0;
                while j < v.len()
                    invariant
                        cand@.len() == index.rules@.len(),
                        v@ == index.buckets@[k]@,
                        index.buckets@.contains_key(k),
                        forall|t: int| 0 <= t < cb.len() && cb[t] ==> cand@[t],
                        forall|jj: int| 0 <= jj < j ==> cand@[v@[jj] as int],
                    decreases v@.len() - j,
                {
                    let idx = v[j];
                    proof {
                        assert(index.buckets@[k]@[j as int] < index.rules@.len());
                    }
                    cand.set(idx, true);
                    j = j + 1;
                }
                proof {
                    assert forall|i: usize|
                        index.buckets@[k]@.contains(i) implies cand@[i as int] by {
                        let jj = choose|jj: int|
                            0 <= jj < index.buckets@[k]@.len() && index.buckets@[k]@[jj] == i;
                        assert(cand@[v@[jj] as int]);
                    }
                }
            },
        }
        q = q + 1;
    }
    proof {
        assert forall|p: int, i: usize|
            #![trigger index.buckets@[url_window(url@, p)]@.contains(i)]
            0 <= p && p + 4 <= url@.len() && index.buckets@.contains_key(url_window(url@, p))
                && index.buckets@[url_window(url@, p)]@.contains(i) implies cand@[i as int] by {
            assert(p < q);
        }
    }
}

/// Classify one request against a compiled index. Fails only on a
/// structurally malformed descriptor (empty URL); the caller treats
/// that as Allow (fail open).
#[verifier::loop_isolation(false)]
#[verifier::rlimit(100)]
pub fn classify(index: &CompiledIndex, req: &RequestDescriptor) -> (r: Result<
    Verdict,
    InvalidRequestError,
>)
    requires
        index.wf(),
    ensures
        match r {
            Result::Ok(v) => req@.url.len() > 0 && v@ == verdict_of(index.rules_view(), req@),
            Result::Err(_) => req@.url.len() == 0,
        },
{
    if req.url.len() == 0 {
        return Result::Err(InvalidRequestError);
    }
    let ghost rv = index.rules_view();
    let url_lower = to_lower_bytes(&req.url);
    let init_lower = to_lower_bytes(&req.initiator_domain);
    let host = url_host_x(&url_lower);
    let third = init_lower.len() > 0 && !same_party_x(&host, &init_lower);
    let n = index.rules.len();
    let mut cand: Vec<bool> = Vec::new();
    while cand.len() < n
        invariant
            cand@.len() <= n,
        decreases n - cand@.len(),
    {
        cand.push(false);
    }
    // mark the fallback bucket
    let mut fj: usize = 0;
    while fj < index.fallback.len()
        invariant
            cand@.len() == n == index.rules@.len(),
            forall|p: int| 0 <= p < fj ==> cand@[index.fallback@[p] as int],
        decreases index.fallback@.len() - fj,
    {
        let idx = index.fallback[fj];
        cand.set(idx, true);
        fj = fj + 1;
    }
    proof {
        assert forall|i: usize| index.fallback@.contains(i) implies cand@[i as int] by {
            let p = choose|p: int|
                0 <= p < index.fallback@.len() && index.fallback@[p] == i;
        }
    }
    // mark the buckets keyed by windows of the raw and lower-cased URL
    mark_windows(&mut cand, index, &req.url);
    mark_windows(&mut cand, index, &url_lower);
    // completeness: every applicable rule is a candidate
    proof {
        assert forall|t: int|
            0 <= t < n && rule_applies(rv[t], req@) implies cand@[t] by {
            assert(rv[t] == index.rules@[t]@);
            match find_segs_key(index.rules@[t]@.pattern.segments) {
                Option::None => {
                    assert(index.fallback@.contains(t as usize));
                },
                Option::Some(k) => {
                    let u = match_url_of(rv[t], req@);
                    lemma_pattern_key_occurs(rv[t].pattern, u, k);
                    let q = choose|q: int|
                        #![trigger url_window(u, q)]
                        0 <= q && q + 4 <= u.len() && url_window(u, q) == k;
                    if rv[t].mask.match_case {
                        assert(u == req@.url);
                        assert(index.buckets@.contains_key(url_window(req.url@, q)));
                    } else {
                        assert(u == url_lower@);
                        assert(index.buckets@.contains_key(url_window(url_lower@, q)));
                    }
                    assert(index.buckets@[k]@.contains(t as usize));
                },
            }
        }
    }
    // fold the verdict over the candidates in arena order
    let mut has_imp = false;
    let mut has_exc = false;
    let mut has_blk = false;
    let mut has_csp = false;
    let mut best_red: Option<usize> = Option::None;
    let mut csp_acc: Vec<u8> = Vec::new();
    let mut i: usize = 0;
    proof {
        assert(csp_acc@ =~= csp_concat_upto(rv, req@, 0));
    }
    while i < n
        invariant
            i <= n,
            n == rv.len(),
            cand@.len() == n,
            forall|t: int| 0 <= t < n && rule_applies(rv[t], req@) ==> cand@[t],
            has_imp == some_important_block_upto(rv, req@, i as int),
            has_exc == some_exception_upto(rv, req@, i as int),
            has_blk == some_block_upto(rv, req@, i as int),
            has_csp == some_csp_upto(rv, req@, i as int),
            csp_acc@ == csp_concat_upto(rv, req@, i as int),
            match best_red {
                Option::Some(bi) => bi < n && best_redirect_upto(rv, req@, i as int)
                    == Option::Some(rv[bi as int]),
                Option::None => best_redirect_upto(rv, req@, i as int) is None,
            },
        decreases n - i,
    {
        let applies = if cand[i] {
            rule_applies_x(&index.rules[i], req, &url_lower, &init_lower, third)
        } else {
            proof {
                assert(!rule_applies(rv[i as int], req@));
            }
            false
        };
        if applies {
            let rule = &index.rules[i];
            if rule.mask.exception {
                has_exc = true;
            } else if rule.redirect_resource.is_some() {
                match best_red {
                    Option::None => {
                        best_red = Option::Some(i);
                    },
                    Option::Some(bi) => {
                        let cur = &index.rules[bi];
                        if rule.specificity > cur.specificity || (rule.specificity
                            == cur.specificity && rule.id > cur.id) {
                            best_red = Option::Some(i);
                        }
                    },
                }
            } else if rule.content_security_policy.is_some() {
                let ghost acc0 = csp_acc@;
                if csp_acc.len() > 0 {
                    csp_acc.push(44u8);
                    csp_acc.push(32u8);
                }
                match &rule.content_security_policy {
                    Option::Some(p) => {
                        let mut pj: usize = 0;
                        let ghost mid = csp_acc@;
                        while pj < p.len()
                            invariant
                                pj <= p@.len(),
                                csp_acc@ == mid + p@.take(pj as int),
                            decreases p@.len() - pj,
                        {
                            csp_acc.push(p[pj]);
                            proof {
                                assert(mid + p@.take(pj + 1 as int) =~= (mid + p@.take(
                                    pj as int)).push(p@[pj as int]));
                            }
                            pj = pj + 1;
                        }
                        proof {
                            assert(mid + p@.take(p@.len() as int) == mid + p@);
                            if acc0.len() == 0 {
                                assert(mid =~= acc0);
                                assert(csp_acc@ =~= p@);
                            } else {
                                assert(mid =~= acc0 + seq![44u8, 32u8]);
                            }
                        }
                    },
                    Option::None => {
                        proof {
                            assert(false);
                        }
                    },
                }
                has_csp = true;
            } else {
                has_blk = true;
                if rule.mask.important {
                    has_imp = true;
                }
            }
        }
        i = i + 1;
    }
    let verdict = if has_imp {
        Verdict::Block
    } else if has_exc {
        Verdict::Allow
    } else {
        match best_red {
            Option::Some(bi) => {
                proof {
                    lemma_best_redirect_is_redirect(rv, req@, n as int);
                }
                match &index.rules[bi].redirect_resource {
                    Option::Some(res) => Verdict::Redirect(copy_bytes(res)),
                    Option::None => {
                        proof {
                            assert(false);
                        }
                        Verdict::Allow
                    },
                }
            },
            Option::None => {
                if has_blk {
                    Verdict::Block
                } else if has_csp {
                    Verdict::InjectCsp(csp_acc)
                } else {
                    Verdict::Allow
                }
            },
        }
    };
    Result::Ok(verdict)
}

/// The best redirect rule, when there is one, is a redirect rule.
pub proof fn lemma_best_redirect_is_redirect(rules: Seq<RuleG>, req: RequestG, n: int)
    requires
        0 <= n <= rules.len(),
    ensures
        best_redirect_upto(rules, req, n) matches Option::Some(r) ==> is_redirect(r)
            && rule_applies(r, req),
    decreases n,
{
    if n > 0 {
        lemma_best_redirect_is_redirect(rules, req, n - 1);
    }
}

/// Allow-wins: when an exception rule applies and no applicable
/// blocking rule carries `important`, the verdict is Allow — even if
/// blocking rules of any specificity also apply.
pub proof fn lemma_exception_wins(rules: Seq<RuleG>, req: RequestG, ei: int)
    requires
        0 <= ei < rules.len(),
        rule_applies(rules[ei], req),
        is_exception(rules[ei]),
        !some_important_block_upto(rules, req, rules.len() as int),
    ensures
        verdict_of(rules, req) == VerdictG::Allow,
{
    assert(some_exception_upto(rules, req, rules.len() as int));
}

/// Important-wins: an applicable `important` blocking rule forces
/// Block, even over an applicable exception rule.
pub proof fn lemma_important_wins(rules: Seq<RuleG>, req: RequestG, bi: int)
    requires
        0 <= bi < rules.len(),
        rule_applies(rules[bi], req),
        is_blocking(rules[bi]),
        rules[bi].mask.important,
    ensures
        verdict_of(rules, req) == VerdictG::Block,
{
    assert(some_important_block_upto(rules, req, rules.len() as int));
}

/// Compiling the same rule text twice classifies every request
/// identically: the compiled rule sequence is a function of the lines,
/// and the verdict is a function of the rule sequence.
pub proof fn lemma_compile_deterministic(
    rules1: Seq<RuleG>,
    rules2: Seq<RuleG>,
    lines: Seq<Seq<u8>>,
    req: RequestG,
)
    requires
        crate::index::spec_compile(lines) matches Result::Ok(st1) && st1.rules == rules1,
        crate::index::spec_compile(lines) matches Result::Ok(st2) && st2.rules == rules2,
    ensures
        verdict_of(rules1, req) == verdict_of(rules2, req),
{
}

} // verus!
