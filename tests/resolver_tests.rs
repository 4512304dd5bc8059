use clash_lib::fakeip::{FakeDns, FakeIpError};
use clash_lib::message::{
    fingerprint, is_ip_request, is_uncacheable_fingerprint, is_uncacheable_question, trim_name, DnsMessage, DnsQuestion,
    DnsRecord, IpAddr, RData, CLASS_IN, TYPE_A, TYPE_AAAA, TYPE_TXT,
};
use clash_lib::resolver::{
    batch_outcome, cidr_contains_ip, finish_lookup, pick_dual, Cidr, DnsConfig, DnsError,
    DnsMode, ExchangePlan, IpFilter, ResolvePlan, ResolveStep, Resolver, ResolverKind, Route,
};
use clash_lib::trie::{matches_pattern, pattern_rank, to_lower, StringTrie};
use clash_lib::{shutdown, Config, Options, RuntimeController, TokioRuntime};

fn v4(a: u8, b: u8, c: u8, d: u8) -> u32 {
    ((a as u32) << 24) | ((b as u32) << 16) | ((c as u32) << 8) | d as u32
}

fn base_config() -> DnsConfig {
    DnsConfig {
        ipv6: false,
        has_fallback: false,
        hosts: vec![],
        nameserver_policy: vec![],
        fallback_domains: vec![],
        fallback_ip_cidr: None,
        geo_ip: false,
        geo_ip_code: String::new(),
        enhance_mode: DnsMode::Normal,
        fake_ip_addr: 0,
        fake_ip_prefix: 0,
        fake_ip_filter: vec![],
    }
}

fn query(name: &str, qtype: u16) -> DnsMessage {
    DnsMessage::query(name.as_bytes().to_vec(), qtype)
}

fn answer_a(name: &str, ips: &[u32]) -> DnsMessage {
    let mut m = query(name, TYPE_A);
    m.id = 7;
    m.wire = vec![1, 2, 3];
    for ip in ips {
        m.answers.push(DnsRecord { rtype: TYPE_A, ttl: 300, data: RData::A(*ip) });
    }
    m
}

#[test]
fn trie_exact_plus_and_star_patterns() {
    assert!(matches_pattern(b"example.com", b"example.com"));
    assert!(!matches_pattern(b"example.com", b"a.example.com"));
    assert!(matches_pattern(b"+.example.com", b"example.com"));
    assert!(matches_pattern(b"+.example.com", b"a.b.example.com"));
    assert!(!matches_pattern(b"+.example.com", b"badexample.com"));
    assert!(matches_pattern(b"*.example.com", b"a.example.com"));
    assert!(!matches_pattern(b"*.example.com", b"a.b.example.com"));
    assert!(!matches_pattern(b"*.example.com", b"example.com"));
}

#[test]
fn trie_rank_orders_depth_then_kind() {
    assert_eq!(pattern_rank(b"example.com"), 8);
    assert_eq!(pattern_rank(b"*.example.com"), 10);
    assert_eq!(pattern_rank(b"+.example.com"), 6);
}

#[test]
fn trie_search_prefers_deepest_and_most_specific() {
    let mut t: StringTrie<u32> = StringTrie::new();
    t.insert("+.example.com", 1);
    t.insert("*.example.com", 2);
    t.insert("a.example.com", 3);
    assert_eq!(t.search(b"a.example.com"), Some(&3));
    assert_eq!(t.search(b"b.example.com"), Some(&2));
    assert_eq!(t.search(b"x.b.example.com"), Some(&1));
    assert_eq!(t.search(b"example.com"), Some(&1));
    assert_eq!(t.search(b"example.org"), None);
}

#[test]
fn trie_is_case_insensitive_and_replaces_equal_patterns() {
    let mut t: StringTrie<u32> = StringTrie::new();
    t.insert("Dns.Google", 1);
    assert_eq!(t.search(b"DNS.google"), Some(&1));
    t.insert("dns.google", 5);
    assert_eq!(t.entries.len(), 1);
    assert_eq!(t.search(b"dns.google"), Some(&5));
    assert_eq!(to_lower(b"AbC.d"), b"abc.d".to_vec());
}

#[test]
fn fake_ip_scenario_mints_reverses_and_skips() {
    let mut skip: StringTrie<bool> = StringTrie::new();
    skip.insert("+.local", true);
    let mut f = FakeDns::new(v4(198, 18, 0, 0), 16, Some(skip)).unwrap();
    let ip = f.lookup(b"a.test");
    assert_eq!(ip, v4(198, 18, 0, 2));
    assert_eq!(f.reverse_lookup(ip), Some(b"a.test".to_vec()));
    assert_eq!(f.lookup(b"a.test"), ip);
    assert_eq!(f.lookup(b"b.test"), v4(198, 18, 0, 3));
    assert!(f.should_skip(b"x.local"));
    assert!(!f.should_skip(b"a.test"));
    assert!(f.is_fake_ip(v4(198, 18, 200, 1)));
    assert!(!f.is_fake_ip(v4(198, 19, 0, 1)));
    assert!(f.exist(ip));
    assert!(!f.exist(v4(198, 18, 9, 9)));
    assert_eq!(f.reverse_lookup(v4(10, 0, 0, 2)), None);
}

#[test]
fn fake_ip_network_is_aligned_from_any_address() {
    let mut f = FakeDns::new(v4(10, 1, 2, 77), 24, None).unwrap();
    assert_eq!(f.lookup(b"h"), v4(10, 1, 2, 2));
}

#[test]
fn fake_ip_smallest_pool_reuses_oldest() {
    // a /30 leaves one address: network + 2
    let mut f = FakeDns::new(v4(10, 0, 0, 0), 30, None).unwrap();
    let a = f.lookup(b"a");
    assert_eq!(a, v4(10, 0, 0, 2));
    let b = f.lookup(b"b");
    assert_eq!(b, v4(10, 0, 0, 2));
    assert_eq!(f.reverse_lookup(b), Some(b"b".to_vec()));
}

#[test]
fn fake_ip_pool_wraps_and_evicts_least_recent() {
    // a /29 has 8 addresses; 10.0.0.2 ..= 10.0.0.6 may be handed out
    let mut f = FakeDns::new(v4(10, 0, 0, 0), 29, None).unwrap();
    let mut got = vec![];
    for h in ["h1", "h2", "h3", "h4", "h5"] {
        got.push(f.lookup(h.as_bytes()));
    }
    assert_eq!(got, vec![v4(10, 0, 0, 2), v4(10, 0, 0, 3), v4(10, 0, 0, 4), v4(10, 0, 0, 5), v4(10, 0, 0, 6)]);
    // touch h1 so that h2 is the least recently accessed
    assert_eq!(f.lookup(b"h1"), v4(10, 0, 0, 2));
    let ip = f.lookup(b"h6");
    assert_eq!(ip, v4(10, 0, 0, 3));
    assert_eq!(f.reverse_lookup(ip), Some(b"h6".to_vec()));
    for ip in got {
        assert_ne!(ip, v4(10, 0, 0, 0));
        assert_ne!(ip, v4(10, 0, 0, 1));
        assert_ne!(ip, v4(10, 0, 0, 7));
    }
}

#[test]
fn fake_ip_rejects_too_small_block() {
    assert_eq!(FakeDns::new(0, 31, None).err(), Some(FakeIpError::RangeTooSmall));
    assert_eq!(FakeDns::new(0, 32, None).err(), Some(FakeIpError::RangeTooSmall));
}

#[test]
fn message_ip_list_ttl_and_names() {
    let mut m = query("example.com.", TYPE_A);
    m.answers.push(DnsRecord { rtype: TYPE_A, ttl: 30, data: RData::A(v4(1, 2, 3, 4)) });
    m.answers.push(DnsRecord { rtype: 5, ttl: 10, data: RData::Other });
    m.answers.push(DnsRecord { rtype: TYPE_AAAA, ttl: 20, data: RData::Aaaa(1) });
    assert_eq!(m.ip_list_of_message(), vec![IpAddr::V4(v4(1, 2, 3, 4)), IpAddr::V6(1)]);
    assert_eq!(m.min_ttl(), 10);
    let mut n = query("example.com.", TYPE_A);
    assert_eq!(n.min_ttl(), 0);
    n.additionals.push(DnsRecord { rtype: TYPE_A, ttl: 9, data: RData::A(1) });
    assert_eq!(n.min_ttl(), 9);
    assert_eq!(m.domain_name_of_message(), Some(b"example.com".to_vec()));
    assert_eq!(trim_name(b"..a.b.."), b"a.b".to_vec());
    assert_eq!(trim_name(b"..."), Vec::<u8>::new());
}

#[test]
fn message_fingerprint_and_cache_rule() {
    let q = DnsQuestion { name: b"Example.COM".to_vec(), qtype: TYPE_A, qclass: CLASS_IN };
    assert_eq!(fingerprint(&q), (b"example.com.".to_vec(), CLASS_IN, TYPE_A));
    assert!(is_ip_request(&q));
    let txt = DnsQuestion { name: b"_acme-challenge.example.com.".to_vec(), qtype: TYPE_TXT, qclass: CLASS_IN };
    assert!(!is_ip_request(&txt));
    assert!(is_uncacheable_fingerprint(&fingerprint(&txt)));
    let other = DnsQuestion { name: b"_acme-challenge.example.com.".to_vec(), qtype: TYPE_A, qclass: CLASS_IN };
    assert!(!is_uncacheable_fingerprint(&fingerprint(&other)));
}

#[test]
fn exchange_is_cached_after_first_answer() {
    let mut r = Resolver::new(&base_config()).unwrap();
    let q = query("example.com.", TYPE_A);
    match r.plan_exchange(&q) {
        Ok(ExchangePlan::Forward(route)) => assert_eq!(route, Route::Main),
        _ => panic!("first exchange must go upstream"),
    }
    let a = answer_a("example.com.", &[v4(93, 184, 216, 34)]);
    r.store_answer(&q, &a);
    match r.plan_exchange(&q) {
        Ok(ExchangePlan::Cached(c)) => {
            assert_eq!(c.wire, a.wire);
            assert_eq!(c.ip_list_of_message(), a.ip_list_of_message());
        }
        _ => panic!("second exchange must be served from the cache"),
    }
}

#[test]
fn acme_txt_is_never_cached() {
    let mut r = Resolver::new(&base_config()).unwrap();
    let q = query("_acme-challenge.example.com.", TYPE_TXT);
    for _ in 0..3 {
        match r.plan_exchange(&q) {
            Ok(ExchangePlan::Forward(route)) => assert_eq!(route, Route::Main),
            _ => panic!("must go upstream every time"),
        }
        r.store_answer(&q, &query("_acme-challenge.example.com.", TYPE_TXT));
    }
}

#[test]
fn exchange_rejects_messages_without_one_question() {
    let mut r = Resolver::new(&base_config()).unwrap();
    let mut m = query("a.", TYPE_A);
    m.queries.push(DnsQuestion { name: b"b.".to_vec(), qtype: TYPE_A, qclass: CLASS_IN });
    assert!(matches!(r.plan_exchange(&m), Err(DnsError::InvalidQuery)));
    m.queries.clear();
    assert!(matches!(r.plan_exchange(&m), Err(DnsError::InvalidQuery)));
}

#[test]
fn ip_filter_prefers_fallback_answer() {
    let mut cfg = base_config();
    cfg.has_fallback = true;
    cfg.fallback_ip_cidr = Some(vec![Cidr { addr: IpAddr::V4(v4(1, 2, 3, 0)), prefix: 24 }]);
    let r = Resolver::new(&cfg).unwrap();
    assert_eq!(r.route(&query("example.com.", TYPE_A)), Route::MainAndFallback);
    let main = answer_a("example.com.", &[v4(1, 2, 3, 4)]);
    let fallback = answer_a("example.com.", &[v4(93, 184, 216, 34)]);
    let got = r.pick_race_result(Ok(main), Ok(fallback), None).unwrap();
    assert_eq!(got.ip_list_of_message(), vec![IpAddr::V4(v4(93, 184, 216, 34))]);
    let main = answer_a("example.com.", &[v4(8, 8, 8, 8)]);
    let fallback = answer_a("example.com.", &[v4(93, 184, 216, 34)]);
    let got = r.pick_race_result(Ok(main), Ok(fallback), None).unwrap();
    assert_eq!(got.ip_list_of_message(), vec![IpAddr::V4(v4(8, 8, 8, 8))]);
    let fallback = answer_a("example.com.", &[v4(93, 184, 216, 34)]);
    let got = r.pick_race_result(Err(DnsError::Timeout), Ok(fallback), None).unwrap();
    assert_eq!(got.ip_list_of_message(), vec![IpAddr::V4(v4(93, 184, 216, 34))]);
}

#[test]
fn geoip_filter_compares_country_ignoring_case() {
    let mut cfg = base_config();
    cfg.has_fallback = true;
    cfg.geo_ip = true;
    cfg.geo_ip_code = "CN".to_string();
    let r = Resolver::new(&cfg).unwrap();
    assert!(r.should_ip_fallback(IpAddr::V4(1), Some(b"cn")));
    assert!(!r.should_ip_fallback(IpAddr::V4(1), Some(b"us")));
    assert!(!r.should_ip_fallback(IpAddr::V4(1), None));
    assert!(IpFilter::GeoIp(b"cn".to_vec()).apply(IpAddr::V4(1), Some(b"CN")));
}

#[test]
fn domain_filter_sends_to_fallback_only() {
    let mut cfg = base_config();
    cfg.has_fallback = true;
    cfg.fallback_domains = vec!["+.cn".to_string()];
    let r = Resolver::new(&cfg).unwrap();
    assert_eq!(r.route(&query("baidu.cn.", TYPE_A)), Route::Fallback);
    assert_eq!(r.route(&query("example.com.", TYPE_A)), Route::MainAndFallback);
    assert_eq!(r.route(&query("baidu.cn.", TYPE_TXT)), Route::Main);
    assert!(r.should_only_query_fallback(b"baidu.cn"));
}

#[test]
fn domain_filter_needs_a_fallback_pool() {
    let mut cfg = base_config();
    cfg.fallback_domains = vec!["+.cn".to_string()];
    let r = Resolver::new(&cfg).unwrap();
    assert_eq!(r.route(&query("baidu.cn.", TYPE_A)), Route::Main);
}

#[test]
fn policy_entry_takes_precedence() {
    let mut cfg = base_config();
    cfg.has_fallback = true;
    cfg.fallback_domains = vec!["+.google".to_string()];
    cfg.nameserver_policy = vec!["example.org".to_string(), "dns.google".to_string()];
    let r = Resolver::new(&cfg).unwrap();
    assert_eq!(r.route(&query("dns.google.", TYPE_A)), Route::Policy(1));
    assert_eq!(r.route(&query("dns.google.", TYPE_TXT)), Route::Policy(1));
    assert_eq!(r.route(&query("www.google.", TYPE_A)), Route::Fallback);
}

#[test]
fn cidr_containment() {
    let c = Cidr { addr: IpAddr::V4(v4(1, 2, 3, 0)), prefix: 24 };
    assert!(cidr_contains_ip(&c, IpAddr::V4(v4(1, 2, 3, 255))));
    assert!(!cidr_contains_ip(&c, IpAddr::V4(v4(1, 2, 4, 0))));
    assert!(!cidr_contains_ip(&c, IpAddr::V6(0)));
    let all = Cidr { addr: IpAddr::V4(0), prefix: 0 };
    assert!(cidr_contains_ip(&all, IpAddr::V4(u32::MAX)));
    let host = Cidr { addr: IpAddr::V4(v4(9, 9, 9, 9)), prefix: 32 };
    assert!(cidr_contains_ip(&host, IpAddr::V4(v4(9, 9, 9, 9))));
    assert!(!cidr_contains_ip(&host, IpAddr::V4(v4(9, 9, 9, 8))));
    let v6 = Cidr { addr: IpAddr::V6(0x2001_0db8u128 << 96), prefix: 32 };
    assert!(cidr_contains_ip(&v6, IpAddr::V6((0x2001_0db8u128 << 96) | 5)));
    assert!(!cidr_contains_ip(&v6, IpAddr::V6(0x2001_0db9u128 << 96)));
}

#[test]
fn resolve_v6_fails_while_disabled() {
    let mut r = Resolver::new(&base_config()).unwrap();
    assert!(matches!(r.resolve_v6("example.com", false), Err(DnsError::Ipv6Disabled)));
    assert!(!r.ipv6());
    r.set_ipv6(true);
    assert!(r.ipv6());
    match r.resolve_v6("example.com", false) {
        Ok(ResolveStep::Lookup(q)) => {
            assert_eq!(q.queries[0].name, b"example.com.".to_vec());
            assert_eq!(q.queries[0].qtype, TYPE_AAAA);
        }
        _ => panic!("expected an AAAA query"),
    }
}

#[test]
fn resolve_passes_literals_through() {
    let mut r = Resolver::new(&base_config()).unwrap();
    assert!(matches!(
        r.resolve("1.2.3.4", false),
        Ok(ResolvePlan::Single(ResolveStep::Done(Some(IpAddr::V4(x))))) if x == v4(1, 2, 3, 4)
    ));
    assert!(matches!(
        r.resolve("::1", true),
        Ok(ResolvePlan::Single(ResolveStep::Done(Some(IpAddr::V6(1)))))
    ));
    assert!(matches!(
        r.resolve_v4("1.2.3.4", true),
        Ok(ResolveStep::Done(Some(IpAddr::V4(x)))) if x == v4(1, 2, 3, 4)
    ));
}

#[test]
fn resolve_builds_a_query_for_names() {
    let mut r = Resolver::new(&base_config()).unwrap();
    match r.resolve_v4("some_domain.understore", false) {
        Ok(ResolveStep::Lookup(q)) => {
            assert_eq!(q.queries.len(), 1);
            assert_eq!(q.queries[0].name, b"some_domain.understore.".to_vec());
            assert_eq!(q.queries[0].qtype, TYPE_A);
            assert!(q.recursion_desired);
        }
        _ => panic!("expected an A query"),
    }
    r.set_ipv6(true);
    assert!(matches!(r.resolve("example.com", false), Ok(ResolvePlan::Dual(_, _))));
}

#[test]
fn hosts_win_over_fake_ip() {
    let mut cfg = base_config();
    cfg.enhance_mode = DnsMode::FakeIp;
    cfg.fake_ip_addr = v4(198, 18, 0, 0);
    cfg.fake_ip_prefix = 16;
    cfg.hosts = vec![("router.lan".to_string(), IpAddr::V4(v4(192, 168, 1, 1)))];
    let mut r = Resolver::new(&cfg).unwrap();
    assert!(r.fake_ip_enabled());
    assert!(matches!(
        r.resolve("router.lan", true),
        Ok(ResolvePlan::Single(ResolveStep::Done(Some(IpAddr::V4(x))))) if x == v4(192, 168, 1, 1)
    ));
    assert!(matches!(
        r.resolve("a.test", true),
        Ok(ResolvePlan::Single(ResolveStep::Done(Some(IpAddr::V4(x))))) if x == v4(198, 18, 0, 2)
    ));
    // without enhanced mode the name is looked up
    assert!(matches!(r.resolve("router.lan", false), Ok(ResolvePlan::Single(ResolveStep::Lookup(_)))));
}

#[test]
fn fake_ip_scenario_through_resolver() {
    let mut cfg = base_config();
    cfg.enhance_mode = DnsMode::FakeIp;
    cfg.fake_ip_addr = v4(198, 18, 0, 0);
    cfg.fake_ip_prefix = 16;
    cfg.fake_ip_filter = vec!["+.local".to_string()];
    let mut r = Resolver::new(&cfg).unwrap();
    assert!(matches!(
        r.resolve_v4("a.test", true),
        Ok(ResolveStep::Done(Some(IpAddr::V4(x)))) if x == v4(198, 18, 0, 2)
    ));
    assert!(matches!(r.resolve_v4("x.local", true), Ok(ResolveStep::Lookup(_))));
    assert_eq!(r.reverse_lookup(IpAddr::V4(v4(198, 18, 0, 2))), Some(b"a.test".to_vec()));
    assert!(r.is_fake_ip(IpAddr::V4(v4(198, 18, 3, 3))));
    assert!(r.fake_ip_exists(IpAddr::V4(v4(198, 18, 0, 2))));
    assert!(!r.fake_ip_exists(IpAddr::V4(v4(198, 18, 0, 3))));
    assert!(!r.is_fake_ip(IpAddr::V6(1)));
    assert_eq!(r.kind(), ResolverKind::Clash);
}

#[test]
fn fake_ip_mode_rejects_tiny_block() {
    let mut cfg = base_config();
    cfg.enhance_mode = DnsMode::FakeIp;
    cfg.fake_ip_prefix = 31;
    assert_eq!(Resolver::new(&cfg).err(), Some(FakeIpError::RangeTooSmall));
    cfg.enhance_mode = DnsMode::RedirHost;
    let r = Resolver::new(&cfg).unwrap();
    assert!(!r.fake_ip_enabled());
    assert_eq!(r.reverse_lookup(IpAddr::V4(1)), None);
}

#[test]
fn dual_stack_takes_first_found_address() {
    let v6 = Ok(Some(IpAddr::V6(0x2606_2800_0220_0001_0248_1893_25c8_1946)));
    let v4r = Ok(Some(IpAddr::V4(v4(93, 184, 216, 34))));
    assert_eq!(pick_dual(v6.clone(), v4r.clone()), v6);
    assert_eq!(pick_dual(Err(DnsError::NoRecord), v4r.clone()), v4r);
    assert_eq!(pick_dual(Ok(None), v4r.clone()), v4r);
    assert_eq!(pick_dual(Err(DnsError::NoRecord), Err(DnsError::Timeout)), Err(DnsError::Timeout));
}

#[test]
fn finish_lookup_picks_an_address_of_the_family() {
    let m = answer_a("example.com.", &[v4(1, 1, 1, 1), v4(2, 2, 2, 2)]);
    match finish_lookup(Ok(m), false) {
        Ok(Some(IpAddr::V4(x))) => assert!(x == v4(1, 1, 1, 1) || x == v4(2, 2, 2, 2)),
        _ => panic!("expected an address"),
    }
    let m = answer_a("example.com.", &[v4(1, 1, 1, 1)]);
    assert_eq!(finish_lookup(Ok(m), true), Err(DnsError::NoRecord));
    let m = answer_a("example.com.", &[]);
    assert_eq!(finish_lookup(Ok(m), false), Err(DnsError::NoRecord));
    assert_eq!(finish_lookup(Err(DnsError::Timeout), false), Err(DnsError::Timeout));
}

#[test]
fn batch_outcome_first_success_else_last_error() {
    let a = answer_a("x.", &[1]);
    let b = answer_a("x.", &[2]);
    let got = batch_outcome(vec![Err(DnsError::NoRecord), Ok(a), Ok(b)], false).unwrap();
    assert_eq!(got.ip_list_of_message(), vec![IpAddr::V4(1)]);
    let e = batch_outcome(
        vec![Err(DnsError::UpstreamTransport("a".to_string())), Err(DnsError::UpstreamTransport("b".to_string()))],
        false,
    );
    assert_eq!(e.err(), Some(DnsError::UpstreamTransport("b".to_string())));
    assert_eq!(batch_outcome(vec![Err(DnsError::NoRecord)], true).err(), Some(DnsError::Timeout));
    assert_eq!(batch_outcome(vec![], false).err(), Some(DnsError::Timeout));
}

#[test]
fn options_default_to_multi_thread_runtime() {
    let mut o = Options { config: Config::Str(String::new()), cwd: None, rt: None, log_file: None };
    assert_eq!(o.runtime(), TokioRuntime::MultiThread);
    o.rt = Some(TokioRuntime::SingleThread);
    assert_eq!(o.runtime(), TokioRuntime::SingleThread);
}

#[test]
fn shutdown_signals_once_per_free_slot() {
    let (tx, mut rx) = tokio::sync::mpsc::channel::<()>(1);
    let ctl = RuntimeController { shutdown_tx: tx };
    assert!(shutdown(&ctl));
    assert!(!shutdown(&ctl));
    assert!(rx.try_recv().is_ok());
    drop(rx);
    assert!(!shutdown(&ctl));
}

#[test]
fn fake_ip_restore_installs_free_mappings_only() {
    let mut f = FakeDns::new(v4(198, 18, 0, 0), 16, None).unwrap();
    assert!(f.restore(b"kept.example", v4(198, 18, 5, 5)));
    assert_eq!(f.reverse_lookup(v4(198, 18, 5, 5)), Some(b"kept.example".to_vec()));
    assert_eq!(f.lookup(b"kept.example"), v4(198, 18, 5, 5));
    assert!(!f.restore(b"kept.example", v4(198, 18, 5, 6)));
    assert!(!f.restore(b"other.example", v4(198, 18, 5, 5)));
    assert!(!f.restore(b"other.example", v4(198, 18, 0, 1)));
    assert!(!f.restore(b"other.example", v4(198, 18, 255, 255)));
    assert!(!f.restore(b"other.example", v4(10, 0, 0, 2)));
    let mut r = Resolver::new(&base_config()).unwrap();
    assert!(!r.restore_fake_ip(b"x", v4(198, 18, 0, 9)));
}

#[test]
fn acme_rule_compares_the_name_as_written() {
    let lower = DnsQuestion { name: b"_acme-challenge.example.com.".to_vec(), qtype: TYPE_TXT, qclass: CLASS_IN };
    let upper = DnsQuestion { name: b"_ACME-CHALLENGE.example.com.".to_vec(), qtype: TYPE_TXT, qclass: CLASS_IN };
    assert!(is_uncacheable_question(&lower));
    assert!(!is_uncacheable_question(&upper));
    let mut r = Resolver::new(&base_config()).unwrap();
    let q = query("_ACME-CHALLENGE.example.com.", TYPE_TXT);
    r.store_answer(&q, &answer_a("_ACME-CHALLENGE.example.com.", &[]));
    assert!(matches!(r.plan_exchange(&q), Ok(ExchangePlan::Cached(_))));
    // the lower-case form shares the cache key, yet still goes upstream
    let q2 = query("_acme-challenge.example.com.", TYPE_TXT);
    assert!(matches!(r.plan_exchange(&q2), Ok(ExchangePlan::Forward(Route::Main))));
}

#[test]
fn invalid_host_name_is_an_invalid_query() {
    let mut r = Resolver::new(&base_config()).unwrap();
    let long = format!("{}.com", "a".repeat(64));
    assert!(matches!(r.resolve_v4(&long, false), Err(DnsError::InvalidQuery)));
}

#[test]
fn resolve_returns_a_hosts_entry_of_either_family() {
    let mut cfg = base_config();
    cfg.hosts = vec![
        ("v6.lan".to_string(), IpAddr::V6(1)),
        ("zero.lan".to_string(), IpAddr::V4(0)),
        ("+.Lan".to_string(), IpAddr::V4(v4(10, 0, 0, 1))),
        ("+.lan".to_string(), IpAddr::V4(v4(10, 0, 0, 2))),
    ];
    let mut r = Resolver::new(&cfg).unwrap();
    assert!(matches!(r.resolve("v6.lan", true), Ok(ResolvePlan::Single(ResolveStep::Done(Some(IpAddr::V6(1)))))));
    assert!(matches!(r.resolve_v4("v6.lan", true), Ok(ResolveStep::Done(None))));
    assert!(matches!(r.resolve("zero.lan", true), Ok(ResolvePlan::Single(ResolveStep::Done(None)))));
    // the last value given for a pattern wins
    assert!(matches!(
        r.resolve("x.lan", true),
        Ok(ResolvePlan::Single(ResolveStep::Done(Some(IpAddr::V4(x))))) if x == v4(10, 0, 0, 2)
    ));
    assert!(matches!(r.resolve("0.0.0.0", false), Ok(ResolvePlan::Single(ResolveStep::Done(None)))));
}

#[test]
fn finish_lookup_skips_unspecified_addresses() {
    let m = answer_a("example.com.", &[0]);
    assert_eq!(finish_lookup(Ok(m), false), Err(DnsError::NoRecord));
    let m = answer_a("example.com.", &[0, v4(1, 2, 3, 4)]);
    assert_eq!(finish_lookup(Ok(m), false), Ok(Some(IpAddr::V4(v4(1, 2, 3, 4)))));
}

#[test]
fn resolver_restores_fake_mappings() {
    let mut cfg = base_config();
    cfg.enhance_mode = DnsMode::FakeIp;
    cfg.fake_ip_addr = v4(198, 18, 0, 0);
    cfg.fake_ip_prefix = 16;
    let mut r = Resolver::new(&cfg).unwrap();
    assert!(r.restore_fake_ip(b"kept.test", v4(198, 18, 1, 1)));
    assert_eq!(r.reverse_lookup(IpAddr::V4(v4(198, 18, 1, 1))), Some(b"kept.test".to_vec()));
    assert!(matches!(
        r.resolve_v4("kept.test", true),
        Ok(ResolveStep::Done(Some(IpAddr::V4(x)))) if x == v4(198, 18, 1, 1)
    ));
    assert_eq!(r.reverse_lookup(IpAddr::V4(v4(10, 0, 0, 1))), None);
}

#[test]
fn dual_plan_holds_both_steps() {
    let mut r = Resolver::new(&base_config()).unwrap();
    r.set_ipv6(true);
    match r.resolve("dual.example", false) {
        Ok(ResolvePlan::Dual(Ok(ResolveStep::Lookup(q6)), Ok(ResolveStep::Lookup(q4)))) => {
            assert_eq!(q6.queries[0].qtype, TYPE_AAAA);
            assert_eq!(q4.queries[0].qtype, TYPE_A);
            assert_eq!(q6.queries[0].name, b"dual.example.".to_vec());
        }
        _ => panic!("expected AAAA and A queries"),
    }
}

#[test]
fn star_matches_one_label_anywhere() {
    assert!(matches_pattern(b"a.*.example.com", b"a.b.example.com"));
    assert!(!matches_pattern(b"a.*.example.com", b"a.example.com"));
    assert!(!matches_pattern(b"a.*.example.com", b"a.b.c.example.com"));
    assert!(matches_pattern(b"*", b"localhost"));
    assert!(!matches_pattern(b"*", b"a.b"));
    assert!(matches_pattern(b"*.*", b"a.b"));
    assert_eq!(pattern_rank(b"a.*.example.com"), 13);
    assert_eq!(pattern_rank(b"a.b.example.com"), 14);
    let mut t: StringTrie<u32> = StringTrie::new();
    t.insert("a.*.example.com", 1);
    t.insert("a.b.example.com", 2);
    assert_eq!(t.search(b"a.b.example.com"), Some(&2));
    assert_eq!(t.search(b"a.c.example.com"), Some(&1));
}
