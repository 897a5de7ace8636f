use blockproxy::cache::{FetchRole, ResponseCache};
use blockproxy::index::compile;
use blockproxy::pipeline::{cache_key, complete, handle, HandleStep};
use blockproxy::rules::{ParseReason, RequestDescriptor, ResourceType, Verdict};
use blockproxy::classify::classify;

fn lines(v: &[&str]) -> Vec<Vec<u8>> {
    v.iter().map(|s| s.as_bytes().to_vec()).collect()
}

fn req(url: &str, initiator: &str, rt: ResourceType) -> RequestDescriptor {
    RequestDescriptor {
        url: url.as_bytes().to_vec(),
        initiator_domain: initiator.as_bytes().to_vec(),
        method: b"GET".to_vec(),
        resource_type: rt,
    }
}

fn verdict_of(rules: &[&str], url: &str, initiator: &str, rt: ResourceType) -> Verdict {
    let idx = compile(&lines(rules)).ok().unwrap();
    classify(&idx, &req(url, initiator, rt)).ok().unwrap()
}

#[test]
fn block_and_exception_scenario() {
    // substring rule blocks; exception rule wins on the other URL
    let rules = ["-ads-$script", "@@good-ads-$script"];
    let v1 = verdict_of(&rules, "http://x.com/-ads-script.js", "", ResourceType::Script);
    assert!(matches!(v1, Verdict::Block));
    let v2 = verdict_of(&rules, "http://x.com/good-ads-script.js", "", ResourceType::Script);
    assert!(matches!(v2, Verdict::Allow));
}

#[test]
fn third_party_domain_scenario() {
    let rules = ["||tracker.example^$third-party,domain=site.com"];
    let v1 = verdict_of(&rules, "http://tracker.example/pixel", "site.com", ResourceType::Other);
    assert!(matches!(v1, Verdict::Block));
    let v2 = verdict_of(&rules, "http://tracker.example/pixel", "other.com", ResourceType::Other);
    assert!(matches!(v2, Verdict::Allow));
}

#[test]
fn important_beats_exception() {
    let rules = ["-ads-$script,important", "@@-ads-$script"];
    let v = verdict_of(&rules, "http://x.com/-ads-1", "", ResourceType::Script);
    assert!(matches!(v, Verdict::Block));
}

#[test]
fn type_restriction() {
    let rules = ["-ads-$script"];
    let v = verdict_of(&rules, "http://x.com/-ads-1", "", ResourceType::Image);
    assert!(matches!(v, Verdict::Allow));
}

#[test]
fn anchors_and_wildcards() {
    let rules = ["|http://a*.js|"];
    let v1 = verdict_of(&rules, "http://a.com/x.js", "", ResourceType::Script);
    assert!(matches!(v1, Verdict::Block));
    let v2 = verdict_of(&rules, "http://a.com/x.js?q=1", "", ResourceType::Script);
    assert!(matches!(v2, Verdict::Allow));
}

#[test]
fn redirect_and_csp() {
    let rules = ["-ads-$redirect=empty.js"];
    let v = verdict_of(&rules, "http://x.com/-ads-1", "", ResourceType::Other);
    match v {
        Verdict::Redirect(name) => assert_eq!(name, b"empty.js".to_vec()),
        _ => panic!("expected redirect"),
    }
    let rules2 = ["||x.com^$csp=default-src 'none'"];
    let v2 = verdict_of(&rules2, "http://x.com/a", "", ResourceType::Other);
    match v2 {
        Verdict::InjectCsp(p) => assert_eq!(p, b"default-src 'none'".to_vec()),
        _ => panic!("expected csp"),
    }
}

#[test]
fn unknown_option_fails_with_line() {
    let e = compile(&lines(&["ok-rule", "bad$bogus-option"])).err().unwrap();
    assert_eq!(e.line, 1);
    assert!(matches!(e.reason, ParseReason::UnknownOption));
    assert_eq!(e.token, b"bogus-option".to_vec());
}

#[test]
fn comments_cosmetics_and_dedup() {
    let idx = compile(&lines(&["! comment", "", "x.com##banner", "-ads-", "-ads-"])).ok().unwrap();
    assert_eq!(idx.skipped, 3);
    assert_eq!(idx.deduplicated, 1);
    assert_eq!(idx.rules.len(), 1);
}

#[test]
fn compile_twice_classifies_identically() {
    let rules = ["-ads-$script", "@@good-ads-$script", "||t.example^$third-party"];
    let urls = ["http://x.com/-ads-a.js", "http://x.com/good-ads-b.js", "http://t.example/p"];
    for u in urls {
        let v1 = verdict_of(&rules, u, "site.com", ResourceType::Script);
        let v2 = verdict_of(&rules, u, "site.com", ResourceType::Script);
        assert_eq!(format!("{:?}", dbgv(&v1)), format!("{:?}", dbgv(&v2)));
    }
}

fn dbgv(v: &Verdict) -> (u8, Vec<u8>) {
    match v {
        Verdict::Allow => (0, Vec::new()),
        Verdict::Block => (1, Vec::new()),
        Verdict::Redirect(n) => (2, n.clone()),
        Verdict::InjectCsp(p) => (3, p.clone()),
    }
}

#[test]
fn empty_url_fails_open_at_pipeline() {
    let idx = compile(&lines(&["-ads-"])).ok().unwrap();
    let r = classify(&idx, &req("", "", ResourceType::Other));
    assert!(r.is_err());
}

#[test]
fn cache_round_trip_invokes_first_fetch_only() {
    let mut c = ResponseCache::new(1000);
    let k = b"get http://x.com/a".to_vec();
    let mut fetches = 0;
    match c.begin_fetch(&k) {
        FetchRole::Leader => {
            fetches += 1;
            c.complete_fetch(&k, Some(b"payload".to_vec()));
        }
        _ => panic!("expected leader"),
    }
    match c.begin_fetch(&k) {
        FetchRole::Hit(v) => assert_eq!(v, b"payload".to_vec()),
        _ => panic!("expected hit; second fetch must not run"),
    }
    assert_eq!(fetches, 1);
}

#[test]
fn single_flight_second_caller_waits() {
    let mut c = ResponseCache::new(1000);
    let k = b"k".to_vec();
    assert!(matches!(c.begin_fetch(&k), FetchRole::Leader));
    assert!(matches!(c.begin_fetch(&k), FetchRole::Waiter));
    c.complete_fetch(&k, None);
    // a failed fetch is not cached: the next caller retries
    assert!(matches!(c.begin_fetch(&k), FetchRole::Leader));
}

#[test]
fn eviction_boundary() {
    let mut c = ResponseCache::new(10);
    c.insert(b"a".to_vec(), vec![0u8; 6]);
    c.insert(b"b".to_vec(), vec![0u8; 5]);
    // 6 + 5 exceeds 10 by one: the least-recently-used entry leaves
    assert!(c.lookup(&b"a".to_vec()).is_none());
    assert!(c.lookup(&b"b".to_vec()).is_some());
    assert_eq!(c.total_weight, 5);
}

#[test]
fn lru_access_order() {
    let mut c = ResponseCache::new(1000);
    c.insert(b"a".to_vec(), vec![0u8; 600]);
    assert!(c.lookup(&b"a".to_vec()).is_some());
    c.insert(b"b".to_vec(), vec![0u8; 600]);
    assert!(c.lookup(&b"a".to_vec()).is_none());
    assert!(c.lookup(&b"b".to_vec()).is_some());
    assert_eq!(c.total_weight, 600);
}

#[test]
fn zero_capacity_disables_caching() {
    let mut c = ResponseCache::new(0);
    c.insert(b"a".to_vec(), b"v".to_vec());
    assert!(c.lookup(&b"a".to_vec()).is_none());
}

#[test]
fn invalidate_removes_entry() {
    let mut c = ResponseCache::new(100);
    c.insert(b"a".to_vec(), b"v".to_vec());
    c.invalidate(&b"a".to_vec());
    assert!(c.lookup(&b"a".to_vec()).is_none());
}

#[test]
fn cache_key_normalizes() {
    let k = cache_key(&b"GET".to_vec(), &b"http://x.com/a?b=1#frag".to_vec());
    assert_eq!(k, b"get http://x.com/a?b=1".to_vec());
}

#[test]
fn pipeline_block_short_circuits() {
    let idx = compile(&lines(&["-ads-"])).ok().unwrap();
    let mut c = ResponseCache::new(1000);
    let step = handle(&idx, &mut c, &req("http://x.com/-ads-1", "", ResourceType::Other), 403);
    match step {
        HandleStep::Respond(resp) => {
            assert_eq!(resp.status, 403);
            assert!(resp.body.is_empty());
        }
        _ => panic!("expected a synthesized blocked response"),
    }
}

#[test]
fn pipeline_fetch_then_cached() {
    let idx = compile(&lines(&["-ads-"])).ok().unwrap();
    let mut c = ResponseCache::new(1000);
    let r = req("http://x.com/page", "", ResourceType::Document);
    let key = match handle(&idx, &mut c, &r, 403) {
        HandleStep::Fetch(key, csp) => {
            assert!(csp.is_none());
            key
        }
        _ => panic!("expected fetch instruction"),
    };
    let resp = complete(&mut c, &key, Some(b"hello".to_vec()), None);
    assert_eq!(resp.status, 200);
    assert_eq!(resp.body, b"hello".to_vec());
    match handle(&idx, &mut c, &r, 403) {
        HandleStep::Respond(resp2) => {
            assert_eq!(resp2.status, 200);
            assert_eq!(resp2.body, b"hello".to_vec());
        }
        _ => panic!("expected cache hit"),
    }
}

#[test]
fn pipeline_failed_fetch_is_gateway_error_and_not_cached() {
    let idx = compile(&lines(&[])).ok().unwrap();
    let mut c = ResponseCache::new(1000);
    let r = req("http://x.com/page", "", ResourceType::Document);
    let key = match handle(&idx, &mut c, &r, 403) {
        HandleStep::Fetch(key, _) => key,
        _ => panic!("expected fetch instruction"),
    };
    let resp = complete(&mut c, &key, None, None);
    assert_eq!(resp.status, 502);
    assert!(matches!(handle(&idx, &mut c, &r, 403), HandleStep::Fetch(_, _)));
}

#[test]
fn match_case_option() {
    let rules = ["/ADS/$match-case"];
    let v1 = verdict_of(&rules, "http://x.com/ADS/1", "", ResourceType::Other);
    assert!(matches!(v1, Verdict::Block));
    let v2 = verdict_of(&rules, "http://x.com/ads/1", "", ResourceType::Other);
    assert!(matches!(v2, Verdict::Allow));
}

#[test]
fn separator_matches_end_of_url() {
    let rules = ["||tracker.example^"];
    let v = verdict_of(&rules, "http://tracker.example", "", ResourceType::Other);
    assert!(matches!(v, Verdict::Block));
    let v2 = verdict_of(&rules, "http://nottracker.example/x", "", ResourceType::Other);
    assert!(matches!(v2, Verdict::Allow));
}

#[test]
fn excluded_domain() {
    let rules = ["-ads-$domain=~good.com"];
    let v1 = verdict_of(&rules, "http://x.com/-ads-1", "good.com", ResourceType::Other);
    assert!(matches!(v1, Verdict::Allow));
    let v2 = verdict_of(&rules, "http://x.com/-ads-1", "bad.com", ResourceType::Other);
    assert!(matches!(v2, Verdict::Block));
}

#[test]
fn subdomain_of_included_domain() {
    let rules = ["-ads-$domain=site.com"];
    let v = verdict_of(&rules, "http://x.com/-ads-1", "sub.site.com", ResourceType::Other);
    assert!(matches!(v, Verdict::Block));
}

#[test]
fn empty_domain_entry_is_error() {
    let e = compile(&lines(&["a$domain=site.com|"])).err().unwrap();
    assert!(matches!(e.reason, ParseReason::EmptyDomainEntry));
    let e2 = compile(&lines(&["a$csp="])).err().unwrap();
    assert!(matches!(e2.reason, ParseReason::EmptyOptionValue));
    let e3 = compile(&lines(&["a$script,,image"])).err().unwrap();
    assert!(matches!(e3.reason, ParseReason::EmptyOption));
}
