use vstd::prelude::*;
use vstd::string::StringSliceAdditionalSpecFns;

use crate::cache::{cache_capacity, cache_get, cache_insert, cached_answers, key_view, new_answer_cache, KeyView};
use crate::fakeip::{FakeDns, FakeIpError};
use crate::message::{
    fingerprint, fingerprint_of, ips_of, is_ip_question, is_ip_request, is_uncacheable,
    is_uncacheable_question, parse_fqdn, relaxed_fqdn, trim_dots,
    DnsMessage, IpAddr, MessageView, QuestionView, CLASS_IN, TYPE_A, TYPE_AAAA,
};
use crate::trie::{built_from, lemma_built_empty, lemma_built_step, lower, to_lower, StringTrie};
use crate::fakeip::pow2;

verus! {

/// How long an answer stays in the cache, in seconds.
pub const CACHE_TTL_SECS: u64 = 60;

/// How many answers the cache holds.
pub const CACHE_CAPACITY: usize = 4096;

/// The errors of the resolver.
#[derive(Debug, Clone, PartialEq, Eq)]
pub enum DnsError {
    /// The message does not hold exactly one question, or the host is no name.
    InvalidQuery,
    /// A server name could not be resolved through the bootstrap resolver.
    BootstrapFailure(String),
    /// Every upstream of a batch failed; the last error.
    UpstreamTransport(String),
    /// The batch deadline passed with no answer.
    Timeout,
    /// The answer holds no address record.
    NoRecord,
    /// An IPv6 lookup while IPv6 is switched off.
    Ipv6Disabled,
    /// The operation is not offered by this resolver.
    NotSupported,
}

/// Which resolver serves the process.
#[derive(Debug, Clone, Copy, PartialEq, Eq, Structural)]
pub enum ResolverKind {
    Clash,
    System,
}

/// What the resolver does with lookups in enhanced mode.
#[derive(Debug, Clone, Copy, PartialEq, Eq, Structural)]
pub enum DnsMode {
    Normal,
    FakeIp,
    RedirHost,
}

/// A block of addresses: an address and the length of its prefix.
#[derive(Debug, Clone, Copy, PartialEq, Eq, Structural)]
pub struct Cidr {
    pub addr: IpAddr,
    pub prefix: u32,
}

/// A filter on the first address of a main answer; when it applies, the
/// fallback answer is preferred.
#[derive(Debug, Clone)]
pub enum IpFilter {
    /// Applies when the address's country, in the GeoIP database, is this code
    /// (compared without regard to ASCII case).
    GeoIp(Vec<u8>),
    /// Applies when the address lies in the block.
    Cidr(Cidr),
}

/// The resolver's configuration.
pub struct DnsConfig {
    pub ipv6: bool,
    /// Whether a fallback pool of upstreams is configured.
    pub has_fallback: bool,
    /// Static host patterns and their addresses.
    pub hosts: Vec<(String, IpAddr)>,
    /// Policy patterns; the upstream group of entry `i` is group `i`.
    pub nameserver_policy: Vec<String>,
    /// Domain patterns whose questions go to the fallback pool only.
    pub fallback_domains: Vec<String>,
    pub fallback_ip_cidr: Option<Vec<Cidr>>,
    pub geo_ip: bool,
    pub geo_ip_code: String,
    pub enhance_mode: DnsMode,
    /// The fake-IP block as an IPv4 address and prefix length.
    pub fake_ip_addr: u32,
    pub fake_ip_prefix: u32,
    pub fake_ip_filter: Vec<String>,
}

/// Where a question is sent.
#[derive(Debug, Clone, Copy, PartialEq, Eq, Structural)]
pub enum Route {
    /// The main pool.
    Main,
    /// The fallback pool only.
    Fallback,
    /// The upstream group of a policy entry.
    Policy(usize),
    /// Main and fallback pools together; the answer is then picked with
    /// `Resolver::pick_race_result`.
    MainAndFallback,
}

/// What `exchange` does with a message.
pub enum ExchangePlan {
    /// A cached answer.
    Cached(DnsMessage),
    /// The message must be sent along the route; the answer is then handed
    /// to `Resolver::store_answer`.
    Forward(Route),
}

/// The first step of a lookup: an address known without the network, or a
/// query to exchange.
pub enum ResolveStep {
    Done(Option<IpAddr>),
    Lookup(DnsMessage),
}

/// The plan of `resolve`: one family, or both raced (IPv6 first, IPv4 second).
pub enum ResolvePlan {
    Single(ResolveStep),
    Dual(Result<ResolveStep, DnsError>, Result<ResolveStep, DnsError>),
}

pub open spec fn cidr_ok(c: Cidr) -> bool {
    match c.addr {
        IpAddr::V4(_) => c.prefix <= 32,
        IpAddr::V6(_) => c.prefix <= 128,
    }
}

/// `ip` lies in block `c`: same family, and equal in the first `prefix` bits.
pub open spec fn cidr_contains(c: Cidr, ip: IpAddr) -> bool {
    match (c.addr, ip) {
        (IpAddr::V4(a), IpAddr::V4(b)) => c.prefix == 0 || (a >> (32 - c.prefix) as u32) == (b >> (32 - c.prefix) as u32),
        (IpAddr::V6(a), IpAddr::V6(b)) => c.prefix == 0 || (a >> (128 - c.prefix) as u32) == (b >> (128 - c.prefix) as u32),
        _ => false,
    }
}

/// Whether filter `f` applies to an address whose GeoIP country is `country`
/// and which lies in the blocks it lies in.
pub open spec fn filter_applies(f: IpFilter, ip: IpAddr, country: Option<Seq<u8>>) -> bool {
    match f {
        IpFilter::GeoIp(code) => country matches Some(c) && lower(c) == lower(code@),
        IpFilter::Cidr(c) => cidr_contains(c, ip),
    }
}

/// Whether `ip` lies in block `c`.
pub fn cidr_contains_ip(c: &Cidr, ip: IpAddr) -> (r: bool)
    requires
        cidr_ok(*c),
    ensures
        r == cidr_contains(*c, ip),
{
    match (c.addr, ip) {
        (IpAddr::V4(a), IpAddr::V4(b)) => c.prefix == 0 || (a >> (32 - c.prefix)) == (b >> (32 - c.prefix)),
        (IpAddr::V6(a), IpAddr::V6(b)) => c.prefix == 0 || (a >> (128 - c.prefix)) == (b >> (128 - c.prefix)),
        _ => false,
    }
}

/// Whether two byte strings are equal without regard to ASCII case.
fn equal_ignoring_case(a: &[u8], b: &[u8]) -> (r: bool)
    ensures
        r == (lower(a@) == lower(b@)),
{
    let la = to_lower(a);
    let lb = to_lower(b);
    crate::fakeip::bytes_equal(la.as_slice(), lb.as_slice())
}

impl IpFilter {
    pub open spec fn valid(&self) -> bool {
        *self matches IpFilter::Cidr(c) ==> cidr_ok(c)
    }

    /// Whether the filter applies to `ip`, whose GeoIP country is `country`.
    pub fn apply(&self, ip: IpAddr, country: Option<&[u8]>) -> (r: bool)
        requires
            self.valid(),
        ensures
            r == filter_applies(*self, ip, match country {
                Some(c) => Some(c@),
                None => None,
            }),
    {
        match self {
            IpFilter::GeoIp(code) => match country {
                Some(c) => equal_ignoring_case(c, code.as_slice()),
                None => false,
            },
            IpFilter::Cidr(c) => cidr_contains_ip(c, ip),
        }
    }
}

pub uninterp spec fn ipv4_literal(s: Seq<u8>) -> Option<u32>;

pub uninterp spec fn ipv6_literal(s: Seq<u8>) -> Option<u128>;

/// Relies on `core::net::Ipv4Addr`'s `FromStr` and its conversion to `u32`:
/// the result depends on the text alone.
#[verifier::external_body]
fn parse_ipv4(host: &str) -> (r: Option<u32>)
    ensures
        r == ipv4_literal(host.spec_bytes()),
{
    host.parse::<core::net::Ipv4Addr>().ok().map(u32::from)
}

/// Relies on `core::net::Ipv6Addr`'s `FromStr` and its conversion to `u128`:
/// the result depends on the text alone.
#[verifier::external_body]
fn parse_ipv6(host: &str) -> (r: Option<u128>)
    ensures
        r == ipv6_literal(host.spec_bytes()),
{
    host.parse::<core::net::Ipv6Addr>().ok().map(u128::from)
}

/// Relies on `rand::seq::SliceRandom::choose` with the thread-local generator:
/// nothing for an empty list, else one of its elements.
#[verifier::external_body]
fn choose_ip(ips: &Vec<IpAddr>) -> (r: Option<IpAddr>)
    ensures
        r is None <==> ips@.len() == 0,
        r matches Some(ip) ==> ips@.contains(ip),
{
    rand::seq::SliceRandom::choose(ips.as_slice(), &mut rand::thread_rng()).copied()
}

/// An address other than the unspecified `0.0.0.0` and `::`.
pub open spec fn specified(ip: IpAddr) -> bool {
    ip != IpAddr::V4(0) && ip != IpAddr::V6(0)
}

/// The specified addresses of `family` (IPv6 when `v6`) among `ips`, in order.
pub open spec fn of_family(ips: Seq<IpAddr>, v6: bool) -> Seq<IpAddr> {
    ips.filter(|ip: IpAddr| (ip is V6) == v6 && specified(ip))
}

/// The specified addresses of one family among `ips`.
pub fn ips_of_family(ips: &Vec<IpAddr>, v6: bool) -> (r: Vec<IpAddr>)
    ensures
        r@ == of_family(ips@, v6),
{
    let mut r: Vec<IpAddr> = Vec::new();
    let mut i: usize = 0;
    while i < ips.len()
        invariant
            i <= ips@.len(),
            r@ == of_family(ips@.subrange(0, i as int), v6),
        decreases ips@.len() - i,
    {
        let ip = ips[i];
        proof {
            assert(ips@.subrange(0, i + 1).drop_last() =~= ips@.subrange(0, i as int));
            reveal(Seq::filter);
        }
        let (is6, zero) = match ip {
            IpAddr::V6(a) => (true, a == 0),
            IpAddr::V4(a) => (false, a == 0),
        };
        if is6 == v6 && !zero {
            r.push(ip);
        }
        i = i + 1;
    }
    proof {
        assert(ips@.subrange(0, ips@.len() as int) =~= ips@);
    }
    r
}

/// The outcome of a batch from the results of its upstreams in the order
/// they completed: the first answer; else a timeout when the deadline passed;
/// else the last error.
pub fn batch_outcome(results: Vec<Result<DnsMessage, DnsError>>, timed_out: bool) -> (r: Result<DnsMessage, DnsError>)
    ensures
        (exists|i: int| 0 <= i < results@.len() && results@[i] is Ok) ==> exists|i: int|
            0 <= i < results@.len() && r == results@[i] && r is Ok && forall|j: int| 0 <= j < i ==> results@[j] is Err,
        !(exists|i: int| 0 <= i < results@.len() && results@[i] is Ok) ==> r == if timed_out || results@.len() == 0 {
            Err::<DnsMessage, DnsError>(DnsError::Timeout)
        } else {
            results@.last()
        },
{
    let ghost orig = results@;
    let mut rs = results;
    let mut i: usize = 0;
    while i < rs.len()
        invariant
            rs@ == orig,
            orig == results@,
            i <= rs@.len(),
            forall|j: int| 0 <= j < i ==> rs@[j] is Err,
        decreases rs@.len() - i,
    {
        if rs[i].is_ok() {
            assert(orig[i as int] is Ok);
            let r = rs.remove(i);
            proof {
                assert(r == orig[i as int]);
                assert(0 <= i < orig.len() && r == orig[i as int] && r is Ok && forall|j: int| 0 <= j < i ==> orig[j] is Err);
            }
            return r;
        }
        i = i + 1;
    }
    assert(!(exists|i: int| 0 <= i < orig.len() && orig[i] is Ok));
    if timed_out || rs.len() == 0 {
        return Err(DnsError::Timeout);
    }
    let r = rs.pop();
    match r {
        Some(x) => x,
        None => Err(DnsError::Timeout),
    }
}

/// The outcome of the IPv6 and IPv4 lookups raced by `resolve`, given in the
/// order they completed: the first when it found an address, else the second.
pub open spec fn dual_outcome(first: Result<Option<IpAddr>, DnsError>, second: Result<Option<IpAddr>, DnsError>) -> Result<Option<IpAddr>, DnsError> {
    if first matches Ok(Some(_)) {
        first
    } else {
        second
    }
}

/// See `dual_outcome`.
pub fn pick_dual(first: Result<Option<IpAddr>, DnsError>, second: Result<Option<IpAddr>, DnsError>) -> (r: Result<Option<IpAddr>, DnsError>)
    ensures
        r == dual_outcome(first, second),
{
    match first {
        Ok(Some(ip)) => Ok(Some(ip)),
        _ => second,
    }
}

/// The address a lookup of `family` returns from `answer`: one of the
/// answer's specified addresses of that family, chosen at random; `NoRecord` when there
/// is none; an exchange error is handed on.
pub fn finish_lookup(answer: Result<DnsMessage, DnsError>, v6: bool) -> (r: Result<Option<IpAddr>, DnsError>)
    ensures
        answer matches Err(e) ==> r == Err::<Option<IpAddr>, DnsError>(e),
        answer matches Ok(m) ==> {
            &&& (of_family(ips_of(m.answers@), v6).len() == 0 <==> r == Err::<Option<IpAddr>, DnsError>(DnsError::NoRecord))
            &&& (of_family(ips_of(m.answers@), v6).len() > 0 ==> (r matches Ok(Some(ip)) && of_family(ips_of(m.answers@), v6).contains(ip)))
        },
{
    match answer {
        Err(e) => Err(e),
        Ok(m) => {
            let all = m.ip_list_of_message();
            let ips = ips_of_family(&all, v6);
            match choose_ip(&ips) {
                Some(ip) => Ok(Some(ip)),
                None => Err(DnsError::NoRecord),
            }
        },
    }
}

/// The country as a byte string.
pub open spec fn country_view(country: Option<&[u8]>) -> Option<Seq<u8>> {
    match country {
        Some(c) => Some(c@),
        None => None,
    }
}

/// `Some(ip)` for a specified address, else `None`.
pub open spec fn keep_spec(ip: IpAddr) -> Option<IpAddr> {
    if specified(ip) {
        Some(ip)
    } else {
        None
    }
}

/// The address a static host entry gives: itself, unless unspecified.
pub fn keep_specified(ip: IpAddr) -> (r: Option<IpAddr>)
    ensures
        r == keep_spec(ip),
{
    match ip {
        IpAddr::V4(a) => if a != 0 { Some(ip) } else { None },
        IpAddr::V6(a) => if a != 0 { Some(ip) } else { None },
    }
}

/// The IPv4 address a static host entry gives: an IPv6 entry gives none.
pub open spec fn v4_spec(ip: IpAddr) -> Option<IpAddr> {
    if ip is V4 {
        keep_spec(ip)
    } else {
        None
    }
}

/// The IPv6 address a static host entry gives: an IPv4 entry gives none.
pub open spec fn v6_spec(ip: IpAddr) -> Option<IpAddr> {
    if ip is V6 {
        keep_spec(ip)
    } else {
        None
    }
}

pub fn v4_of(ip: IpAddr) -> (r: Option<IpAddr>)
    ensures
        r == v4_spec(ip),
{
    match ip {
        IpAddr::V4(_) => keep_specified(ip),
        IpAddr::V6(_) => None,
    }
}

pub fn v6_of(ip: IpAddr) -> (r: Option<IpAddr>)
    ensures
        r == v6_spec(ip),
{
    match ip {
        IpAddr::V6(_) => keep_specified(ip),
        IpAddr::V4(_) => None,
    }
}

/// `r` is the query step for `host`: the recursive query of type `qtype`
/// for the host's fully qualified name, or `InvalidQuery` when it is no name.
pub open spec fn lookup_step(host: Seq<u8>, qtype: u16, r: Result<ResolveStep, DnsError>) -> bool {
    match relaxed_fqdn(host) {
        Some(n) => r matches Ok(ResolveStep::Lookup(q)) && {
            &&& q@.queries.len() == 1
            &&& q@.queries[0] == (QuestionView { name: n, qtype, qclass: CLASS_IN })
            &&& q@.recursion_desired
            &&& q@.answers.len() == 0
        },
        None => r == Err::<ResolveStep, DnsError>(DnsError::InvalidQuery),
    }
}

/// The address `lit` as a literal answer: itself, unless unspecified.
pub open spec fn literal_step(lit: IpAddr) -> Result<ResolveStep, DnsError> {
    Ok(ResolveStep::Done(keep_spec(lit)))
}

/// `r` is the IPv4 step for `host`, taken by resolver `s0`, which becomes
/// `s1`. An IPv4 literal is its own answer. In enhanced mode the best static
/// host entry comes next (its IPv4 address, if any); then, in fake-IP mode
/// and for a host that is not skipped, the engine's address for the host,
/// which the host is then mapped to. Otherwise the A query for the host, and
/// the fake-IP engine is left as it was.
pub open spec fn v4_step(s0: Resolver, s1: Resolver, host: Seq<u8>, enhanced: bool, r: Result<ResolveStep, DnsError>) -> bool {
    if ipv4_literal(host) is Some {
        r == literal_step(IpAddr::V4(ipv4_literal(host)->Some_0)) && s1.fake_spec() == s0.fake_spec()
    } else if enhanced && s0.hosts_hit(host) {
        (exists|v: IpAddr| s0.hosts_best(host, v) && r == Ok::<ResolveStep, DnsError>(ResolveStep::Done(v4_spec(v))))
            && s1.fake_spec() == s0.fake_spec()
    } else if enhanced && s0.fake_spec() is Some && !s0.fake_skips(host) {
        let f = s0.fake_spec()->Some_0;
        r matches Ok(ResolveStep::Done(Some(IpAddr::V4(ip)))) && s1.fake_spec() matches Some(g) && fake_minted(f, g, host, ip)
    } else {
        lookup_step(host, TYPE_A, r) && s1.fake_spec() == s0.fake_spec()
    }
}

/// `g` is fake-IP engine `f` after `lookup(host)` returned `ip`.
pub open spec fn fake_minted(f: FakeDns, g: FakeDns, host: Seq<u8>, ip: u32) -> bool {
    &&& g.wf()
    &&& g.mapped(host, ip)
    &&& f.first_spec() <= ip <= f.last_spec()
    &&& g.network_spec() == f.network_spec()
    &&& g.size_spec() == f.size_spec()
    &&& g.skipped_spec() == f.skipped_spec()
    &&& 2 <= ip
    &&& forall|i: u32| f.mapped(host, i) ==> ip == i
    &&& forall|h: Seq<u8>, i: u32| #![auto] g.mapped(h, i) && h != host ==> f.mapped(h, i)
    &&& (exists|a: u32| f.first_spec() <= a <= f.last_spec() && #[trigger] f.is_free(a))
        ==> forall|h: Seq<u8>, i: u32| f.mapped(h, i) ==> g.mapped(h, i)
    &&& forall|h: Seq<u8>, i: u32| f.mapped(h, i) && !g.mapped(h, i) ==> f.least_recent(h)
    &&& (forall|i: u32| !f.mapped(host, i)) && (exists|a: u32| f.first_spec() <= a <= f.last_spec() && #[trigger] f.is_free(a))
        ==> f.first_free_from_cursor(ip)
}

/// `r` is the IPv6 step for `host` on resolver `s`: `Ipv6Disabled` while
/// IPv6 is off; an IPv6 literal is its own answer; in enhanced mode the best
/// static host entry comes next (its IPv6 address, if any); otherwise the
/// AAAA query for the host.
pub open spec fn v6_step(s: Resolver, host: Seq<u8>, enhanced: bool, r: Result<ResolveStep, DnsError>) -> bool {
    if !s.ipv6_spec() {
        r == Err::<ResolveStep, DnsError>(DnsError::Ipv6Disabled)
    } else if ipv6_literal(host) is Some {
        r == literal_step(IpAddr::V6(ipv6_literal(host)->Some_0))
    } else if enhanced && s.hosts_hit(host) {
        exists|v: IpAddr| s.hosts_best(host, v) && r == Ok::<ResolveStep, DnsError>(ResolveStep::Done(v6_spec(v)))
    } else {
        lookup_step(host, TYPE_AAAA, r)
    }
}

/// `r` is the plan of `resolve(host, enhanced)` on resolver `s0`, which
/// becomes `s1`.
pub open spec fn resolve_plan(s0: Resolver, s1: Resolver, host: Seq<u8>, enhanced: bool, r: Result<ResolvePlan, DnsError>) -> bool {
    if ipv4_literal(host) is Some {
        r == Ok::<ResolvePlan, DnsError>(ResolvePlan::Single(ResolveStep::Done(keep_spec(IpAddr::V4(ipv4_literal(host)->Some_0)))))
            && s1.fake_spec() == s0.fake_spec()
    } else if ipv6_literal(host) is Some {
        r == Ok::<ResolvePlan, DnsError>(ResolvePlan::Single(ResolveStep::Done(keep_spec(IpAddr::V6(ipv6_literal(host)->Some_0)))))
            && s1.fake_spec() == s0.fake_spec()
    } else if enhanced && s0.hosts_hit(host) {
        (exists|v: IpAddr| s0.hosts_best(host, v) && r == Ok::<ResolvePlan, DnsError>(ResolvePlan::Single(ResolveStep::Done(keep_spec(v)))))
            && s1.fake_spec() == s0.fake_spec()
    } else if !s0.ipv6_spec() {
        match r {
            Ok(ResolvePlan::Single(st)) => v4_step(s0, s1, host, enhanced, Ok(st)),
            Ok(ResolvePlan::Dual(_, _)) => false,
            Err(e) => v4_step(s0, s1, host, enhanced, Err(e)),
        }
    } else {
        r matches Ok(ResolvePlan::Dual(s6, s4)) && v6_step(s0, host, enhanced, s6) && v4_step(s0, s1, host, enhanced, s4)
    }
}

/// The UTF-8 bytes of a string.
pub open spec fn string_bytes(s: String) -> Seq<u8> {
    vstd::utf8::encode_utf8(s@)
}

pub open spec fn names_of(v: Seq<String>) -> Seq<Seq<u8>> {
    v.map_values(|s: String| string_bytes(s))
}

pub open spec fn host_patterns(h: Seq<(String, IpAddr)>) -> Seq<Seq<u8>> {
    h.map_values(|e: (String, IpAddr)| string_bytes(e.0))
}

pub open spec fn host_values(h: Seq<(String, IpAddr)>) -> Seq<IpAddr> {
    h.map_values(|e: (String, IpAddr)| e.1)
}

/// `0, 1, ..., n - 1`.
pub open spec fn indices(n: nat) -> Seq<usize> {
    Seq::new(n, |k: int| k as usize)
}

pub open spec fn trues(n: nat) -> Seq<bool> {
    Seq::new(n, |k: int| true)
}

/// The configured CIDR blocks, none when absent.
pub open spec fn cidrs_of(cfg: DnsConfig) -> Seq<Cidr> {
    match cfg.fallback_ip_cidr {
        Some(v) => v@,
        None => Seq::empty(),
    }
}

/// `fs` is the GeoIP filter for `cfg`'s country code followed by a block
/// filter for each configured block.
pub open spec fn ip_filters_for(cfg: DnsConfig, fs: Seq<IpFilter>) -> bool {
    &&& fs.len() == 1 + cidrs_of(cfg).len()
    &&& fs[0] matches IpFilter::GeoIp(code) && code@ == string_bytes(cfg.geo_ip_code)
    &&& forall|k: int| 0 <= k < cidrs_of(cfg).len() ==> fs[k + 1] == IpFilter::Cidr(#[trigger] cidrs_of(cfg)[k])
}

/// The DNS resolver: static hosts, fake IPs, the answer cache, name server
/// policy and the fallback rules. The upstream pools themselves are run by
/// the caller along the routes it is given.
pub struct Resolver {
    ipv6: bool,
    hosts: Option<StringTrie<IpAddr>>,
    has_fallback: bool,
    fallback_domain_filters: Option<StringTrie<bool>>,
    fallback_ip_filters: Option<Vec<IpFilter>>,
    lru_cache: Option<lru_time_cache::LruCache<crate::message::Fingerprint, DnsMessage>>,
    policy: Option<StringTrie<usize>>,
    fake_dns: Option<FakeDns>,
}

impl Resolver {
    pub closed spec fn ipv6_spec(&self) -> bool {
        self.ipv6
    }

    pub closed spec fn hosts_spec(&self) -> Option<StringTrie<IpAddr>> {
        self.hosts
    }

    pub closed spec fn has_fallback_spec(&self) -> bool {
        self.has_fallback
    }

    pub closed spec fn domain_filter_spec(&self) -> Option<StringTrie<bool>> {
        self.fallback_domain_filters
    }

    pub closed spec fn ip_filters_spec(&self) -> Option<Vec<IpFilter>> {
        self.fallback_ip_filters
    }

    pub closed spec fn policy_spec(&self) -> Option<StringTrie<usize>> {
        self.policy
    }

    pub closed spec fn fake_spec(&self) -> Option<FakeDns> {
        self.fake_dns
    }

    pub closed spec fn has_cache(&self) -> bool {
        self.lru_cache is Some
    }

    /// The answers the cache holds.
    pub closed spec fn cache_view(&self) -> Map<KeyView, MessageView> {
        match self.lru_cache {
            Some(c) => cached_answers(c),
            None => Map::empty(),
        }
    }

    pub closed spec fn wf(&self) -> bool {
        &&& self.hosts matches Some(t) ==> t.wf()
        &&& self.fallback_domain_filters matches Some(t) ==> t.wf()
        &&& self.policy matches Some(t) ==> t.wf()
        &&& self.fake_dns matches Some(f) ==> f.wf()
        &&& self.lru_cache matches Some(c) ==> cache_capacity(c) > 0
        &&& self.fallback_ip_filters matches Some(v) ==> forall|i: int| 0 <= i < v@.len() ==> (#[trigger] v@[i]).valid()
    }

    /// A static host entry matches `host`.
    pub open spec fn hosts_hit(&self, host: Seq<u8>) -> bool {
        self.hosts_spec() matches Some(t) && t.any_match(lower(host))
    }

    /// `v` is the address of the best static host entry for `host`.
    pub open spec fn hosts_best(&self, host: Seq<u8>, v: IpAddr) -> bool {
        self.hosts_spec() matches Some(t) && exists|i: int| t.is_best(i, lower(host)) && t.entries@[i].value == v
    }

    /// Fake-IP mode skips `host`.
    pub open spec fn fake_skips(&self, host: Seq<u8>) -> bool {
        self.fake_spec() matches Some(f) && (f.skipped_spec() matches Some(t) && t.any_match(lower(host)))
    }

    /// A policy entry matches the name `n`.
    pub open spec fn policy_hit(&self, n: Seq<u8>) -> bool {
        self.policy_spec() matches Some(p) && p.any_match(lower(n))
    }

    /// `k` is the upstream group of the best policy entry for `n`.
    pub open spec fn policy_group(&self, n: Seq<u8>, k: usize) -> bool {
        self.policy_spec() matches Some(p) && exists|i: int| p.is_best(i, lower(n)) && p.entries@[i].value == k
    }

    /// A fallback pool is configured and a fallback domain filter matches `n`.
    pub open spec fn fallback_only(&self, n: Seq<u8>) -> bool {
        self.has_fallback_spec() && (self.domain_filter_spec() matches Some(f) && f.any_match(lower(n)))
    }

    /// `r` is where the question `q` goes: to the group of a matching policy
    /// entry; else, for a question that is not for an address, to the main
    /// pool; else to the fallback pool alone when a fallback domain filter
    /// matches; else to the main pool when no fallback pool is configured;
    /// else to both.
    pub open spec fn route_of(&self, q: crate::message::QuestionView, r: Route) -> bool {
        let n = trim_dots(q.name);
        if self.policy_hit(n) {
            r matches Route::Policy(k) && self.policy_group(n, k)
        } else if !is_ip_question(q) {
            r == Route::Main
        } else if self.fallback_only(n) {
            r == Route::Fallback
        } else if !self.has_fallback_spec() {
            r == Route::Main
        } else {
            r == Route::MainAndFallback
        }
    }

    /// Some IP filter applies to `ip`, whose GeoIP country is `country`.
    pub open spec fn ip_fallback(&self, ip: IpAddr, country: Option<Seq<u8>>) -> bool {
        self.ip_filters_spec() matches Some(fs) && exists|i: int| 0 <= i < fs@.len() && filter_applies(#[trigger] fs@[i], ip, country)
    }

    /// The answer of a race of the main and fallback pools, where `country` is
    /// the GeoIP country of the first address of main's answer.
    pub open spec fn race_result(
        &self,
        main: Result<DnsMessage, DnsError>,
        fallback: Result<DnsMessage, DnsError>,
        country: Option<Seq<u8>>,
    ) -> Result<DnsMessage, DnsError> {
        if main matches Ok(m) && ips_of(m.answers@).len() > 0 && !self.ip_fallback(ips_of(m.answers@)[0], country) {
            main
        } else {
            fallback
        }
    }

    /// A resolver for `cfg`; it fails when fake-IP mode is asked for with a
    /// block of fewer than four addresses.
    pub fn new(cfg: &DnsConfig) -> (r: Result<Resolver, FakeIpError>)
        requires
            cfg.fallback_ip_cidr matches Some(v) ==> forall|i: int| 0 <= i < v@.len() ==> cidr_ok(#[trigger] v@[i]),
        ensures
            r is Err <==> (cfg.enhance_mode == DnsMode::FakeIp && cfg.fake_ip_prefix > 30),
            r matches Ok(res) ==> {
                &&& res.wf()
                &&& res.ipv6_spec() == cfg.ipv6
                &&& res.has_fallback_spec() == cfg.has_fallback
                &&& res.has_cache()
                &&& res.cache_view() == Map::<KeyView, MessageView>::empty()
                &&& (res.fake_spec() is Some <==> cfg.enhance_mode == DnsMode::FakeIp)
                &&& (res.hosts_spec() is Some <==> cfg.hosts@.len() > 0)
                &&& (res.policy_spec() is Some <==> cfg.nameserver_policy@.len() > 0)
                &&& (res.domain_filter_spec() is Some <==> cfg.fallback_domains@.len() > 0)
                &&& (res.ip_filters_spec() is Some <==> (cfg.fallback_ip_cidr is Some || cfg.geo_ip))
                &&& (res.hosts_spec() matches Some(t) ==> built_from(t, host_patterns(cfg.hosts@), host_values(cfg.hosts@)))
                &&& (res.policy_spec() matches Some(t) ==> built_from(t, names_of(cfg.nameserver_policy@), indices(cfg.nameserver_policy@.len())))
                &&& (res.domain_filter_spec() matches Some(t) ==> built_from(t, names_of(cfg.fallback_domains@), trues(cfg.fallback_domains@.len())))
                &&& (res.ip_filters_spec() matches Some(v) ==> ip_filters_for(*cfg, v@))
                &&& (res.fake_spec() matches Some(f) ==> {
                    &&& f.size_spec() == pow2((32 - cfg.fake_ip_prefix) as nat)
                    &&& f.network_spec() == cfg.fake_ip_addr as int - (cfg.fake_ip_addr as int) % f.size_spec()
                    &&& forall|h: Seq<u8>, ip: u32| !f.mapped(h, ip)
                    &&& f.cursor_spec() == f.first_spec()
                    &&& (f.skipped_spec() is Some <==> cfg.fake_ip_filter@.len() > 0)
                    &&& (f.skipped_spec() matches Some(t) ==> built_from(t, names_of(cfg.fake_ip_filter@), trues(cfg.fake_ip_filter@.len())))
                })
            },
    {
        let hosts = if cfg.hosts.len() > 0 {
            Some(hosts_trie(&cfg.hosts))
        } else {
            None
        };
        let policy = if cfg.nameserver_policy.len() > 0 {
            Some(policy_trie(&cfg.nameserver_policy))
        } else {
            None
        };
        let domain_filters = if cfg.fallback_domains.len() > 0 {
            Some(domain_set(&cfg.fallback_domains))
        } else {
            None
        };
        let ip_filters = if cfg.fallback_ip_cidr.is_some() || cfg.geo_ip {
            let mut fs: Vec<IpFilter> = Vec::new();
            let code: &str = cfg.geo_ip_code.as_str();
            fs.push(IpFilter::GeoIp(vstd::slice::slice_to_vec(code.as_bytes())));
            assert(fs@[0] matches IpFilter::GeoIp(c) && c@ == string_bytes(cfg.geo_ip_code));
            match &cfg.fallback_ip_cidr {
                Some(v) => {
                    let mut i: usize = 0;
                    while i < v.len()
                        invariant
                            i <= v@.len(),
                            fs@.len() == i + 1,
                            cfg.fallback_ip_cidr == Some(*v),
                            fs@[0] matches IpFilter::GeoIp(c) && c@ == string_bytes(cfg.geo_ip_code),
                            forall|k: int| 0 <= k < i ==> fs@[k + 1] == IpFilter::Cidr(#[trigger] v@[k]),
                            forall|j: int| 0 <= j < v@.len() ==> cidr_ok(#[trigger] v@[j]),
                            forall|j: int| 0 <= j < fs@.len() ==> (#[trigger] fs@[j]).valid(),
                        decreases v@.len() - i,
                    {
                        fs.push(IpFilter::Cidr(v[i]));
                        i = i + 1;
                    }
                },
                None => {},
            }
            Some(fs)
        } else {
            None
        };
        let fake_dns = match cfg.enhance_mode {
            DnsMode::FakeIp => {
                let skipped = if cfg.fake_ip_filter.len() > 0 {
                    Some(domain_set(&cfg.fake_ip_filter))
                } else {
                    None
                };
                match FakeDns::new(cfg.fake_ip_addr, cfg.fake_ip_prefix, skipped) {
                    Ok(f) => Some(f),
                    Err(e) => {
                        return Err(e);
                    },
                }
            },
            _ => None,
        };
        let cache = new_answer_cache(CACHE_TTL_SECS, CACHE_CAPACITY);
        Ok(Resolver {
            ipv6: cfg.ipv6,
            hosts,
            has_fallback: cfg.has_fallback,
            fallback_domain_filters: domain_filters,
            fallback_ip_filters: ip_filters,
            lru_cache: Some(cache),
            policy,
            fake_dns,
        })
    }

    /// Where the message's first question goes; see `route_of`.
    pub fn route(&self, m: &DnsMessage) -> (r: Route)
        requires
            self.wf(),
            m@.queries.len() > 0,
        ensures
            self.route_of(m@.queries[0], r),
    {
        let q = &m.queries[0];
        let name = crate::message::trim_name(q.name.as_slice());
        assert(name@ == trim_dots(m@.queries[0].name));
        match &self.policy {
            Some(p) => match p.search(name.as_slice()) {
                Some(k) => {
                    return Route::Policy(*k);
                },
                None => {},
            },
            None => {},
        }
        if !is_ip_request(q) {
            return Route::Main;
        }
        if self.should_only_query_fallback(name.as_slice()) {
            return Route::Fallback;
        }
        if !self.has_fallback {
            return Route::Main;
        }
        Route::MainAndFallback
    }

    /// Whether the name `n` goes to the fallback pool alone.
    pub fn should_only_query_fallback(&self, n: &[u8]) -> (r: bool)
        requires
            self.wf(),
        ensures
            r == self.fallback_only(n@),
    {
        if !self.has_fallback {
            return false;
        }
        match &self.fallback_domain_filters {
            Some(f) => f.search(n).is_some(),
            None => false,
        }
    }

    /// Whether an IP filter applies to `ip`, whose GeoIP country is `country`.
    pub fn should_ip_fallback(&self, ip: IpAddr, country: Option<&[u8]>) -> (r: bool)
        requires
            self.wf(),
        ensures
            r == self.ip_fallback(ip, match country {
                Some(c) => Some(c@),
                None => None,
            }),
    {
        match &self.fallback_ip_filters {
            Some(fs) => {
                let mut i: usize = 0;
                while i < fs.len()
                    invariant
                        i <= fs@.len(),
                        self.ip_filters_spec() == Some(*fs),
                        forall|j: int| 0 <= j < fs@.len() ==> (#[trigger] fs@[j]).valid(),
                        forall|j: int| 0 <= j < i ==> !filter_applies(#[trigger] fs@[j], ip, match country {
                            Some(c) => Some(c@),
                            None => None,
                        }),
                    decreases fs@.len() - i,
                {
                    if fs[i].apply(ip, country) {
                        proof {
                            let cm = match country {
                                Some(c) => Some(c@),
                                None => None,
                            };
                            assert(filter_applies(fs@[i as int], ip, cm));
                            assert(self.ip_filters_spec() matches Some(v) && v@ == fs@);
                            assert(self.ip_fallback(ip, cm));
                        }
                        return true;
                    }
                    i = i + 1;
                }
                false
            },
            None => false,
        }
    }

    /// The answer of a race of the main and fallback pools: main's answer when
    /// it succeeded, holds an address, and no IP filter applies to its first
    /// address (whose GeoIP country is `country`); else fallback's.
    pub fn pick_race_result(
        &self,
        main: Result<DnsMessage, DnsError>,
        fallback: Result<DnsMessage, DnsError>,
        country: Option<&[u8]>,
    ) -> (r: Result<DnsMessage, DnsError>)
        requires
            self.wf(),
        ensures
            r == self.race_result(main, fallback, country_view(country)),
    {
        match &main {
            Ok(m) => {
                let ips = m.ip_list_of_message();
                if ips.len() > 0 && !self.should_ip_fallback(ips[0], country) {
                    return main;
                }
            },
            Err(_) => {},
        }
        fallback
    }

    /// The first step of `exchange`: `InvalidQuery` unless the message holds
    /// exactly one question; else the cached answer to it, if one is served
    /// (the read drops expired answers and marks the one served as most
    /// recently used); else the route along which to send it. A TXT question
    /// for an `_acme-challenge.` name is always sent.
    pub fn plan_exchange(&mut self, m: &DnsMessage) -> (r: Result<ExchangePlan, DnsError>)
        requires
            old(self).wf(),
        ensures
            final(self).wf(),
            final(self).ipv6_spec() == old(self).ipv6_spec(),
            final(self).hosts_spec() == old(self).hosts_spec(),
            final(self).has_fallback_spec() == old(self).has_fallback_spec(),
            final(self).domain_filter_spec() == old(self).domain_filter_spec(),
            final(self).ip_filters_spec() == old(self).ip_filters_spec(),
            final(self).policy_spec() == old(self).policy_spec(),
            final(self).fake_spec() == old(self).fake_spec(),
            final(self).has_cache() == old(self).has_cache(),
            forall|k: KeyView| #[trigger] final(self).cache_view().contains_key(k)
                ==> old(self).cache_view().contains_key(k) && final(self).cache_view()[k] == old(self).cache_view()[k],
            m@.queries.len() != 1 <==> r == Err::<ExchangePlan, DnsError>(DnsError::InvalidQuery),
            r is Err ==> m@.queries.len() != 1,
            r matches Ok(ExchangePlan::Cached(a)) ==> {
                &&& old(self).cache_view().contains_key(fingerprint_of(m@.queries[0]))
                &&& old(self).cache_view()[fingerprint_of(m@.queries[0])] == a@
                &&& final(self).cache_view().contains_key(fingerprint_of(m@.queries[0]))
                &&& !is_uncacheable(m@.queries[0])
            },
            r matches Ok(ExchangePlan::Forward(route)) ==> old(self).route_of(m@.queries[0], route),
            r is Ok && is_uncacheable(m@.queries[0]) ==> r matches Ok(ExchangePlan::Forward(_)),
    {
        if m.queries.len() != 1 {
            return Err(DnsError::InvalidQuery);
        }
        if is_uncacheable_question(&m.queries[0]) {
            return Ok(ExchangePlan::Forward(self.route(m)));
        }
        let route = self.route(m);
        let k = fingerprint(&m.queries[0]);
        let ghost before = self.cache_view();
        let taken = self.lru_cache.take();
        match taken {
            Some(mut c) => {
                proof {
                    assert(before == cached_answers(c));
                }
                let got = cache_get(&mut c, &k);
                self.lru_cache = Some(c);
                proof {
                    assert(self.cache_view() == cached_answers(c));
                    assert(key_view(k) == fingerprint_of(m@.queries[0]));
                }
                match got {
                    Some(a) => Ok(ExchangePlan::Cached(a)),
                    None => Ok(ExchangePlan::Forward(route)),
                }
            },
            None => {
                self.lru_cache = None;
                assert(self.cache_view() =~= before);
                Ok(ExchangePlan::Forward(route))
            },
        }
    }

    /// The last step of `exchange`: keeps `answer` to the message's question in
    /// the cache, unless the question is a TXT one for an `_acme-challenge.`
    /// name.
    pub fn store_answer(&mut self, m: &DnsMessage, answer: &DnsMessage)
        requires
            old(self).wf(),
            m@.queries.len() == 1,
        ensures
            final(self).wf(),
            final(self).ipv6_spec() == old(self).ipv6_spec(),
            final(self).hosts_spec() == old(self).hosts_spec(),
            final(self).has_fallback_spec() == old(self).has_fallback_spec(),
            final(self).domain_filter_spec() == old(self).domain_filter_spec(),
            final(self).ip_filters_spec() == old(self).ip_filters_spec(),
            final(self).policy_spec() == old(self).policy_spec(),
            final(self).fake_spec() == old(self).fake_spec(),
            final(self).has_cache() == old(self).has_cache(),
            is_uncacheable(m@.queries[0]) || !old(self).has_cache() ==> final(self).cache_view() == old(self).cache_view(),
            !is_uncacheable(m@.queries[0]) && old(self).has_cache() ==> {
                &&& final(self).cache_view().contains_key(fingerprint_of(m@.queries[0]))
                &&& final(self).cache_view()[fingerprint_of(m@.queries[0])] == answer@
                &&& forall|k: KeyView| #[trigger] final(self).cache_view().contains_key(k) && k != fingerprint_of(m@.queries[0])
                    ==> old(self).cache_view().contains_key(k) && final(self).cache_view()[k] == old(self).cache_view()[k]
            },
    {
        if is_uncacheable_question(&m.queries[0]) {
            return;
        }
        let k = fingerprint(&m.queries[0]);
        let a = answer.duplicate();
        let ghost kv = key_view(k);
        let ghost before = self.cache_view();
        let taken = self.lru_cache.take();
        match taken {
            Some(mut c) => {
                proof {
                    assert(before == cached_answers(c));
                }
                cache_insert(&mut c, k, a);
                self.lru_cache = Some(c);
                proof {
                    assert(self.cache_view() == cached_answers(c));
                    assert(kv == fingerprint_of(m@.queries[0]));
                }
            },
            None => {},
        }
    }

    /// The IPv4 step of a lookup of `host`; see `v4_step`.
    pub fn resolve_v4(&mut self, host: &str, enhanced: bool) -> (r: Result<ResolveStep, DnsError>)
        requires
            old(self).wf(),
        ensures
            final(self).wf(),
            final(self).ipv6_spec() == old(self).ipv6_spec(),
            final(self).hosts_spec() == old(self).hosts_spec(),
            final(self).policy_spec() == old(self).policy_spec(),
            final(self).has_fallback_spec() == old(self).has_fallback_spec(),
            final(self).domain_filter_spec() == old(self).domain_filter_spec(),
            final(self).ip_filters_spec() == old(self).ip_filters_spec(),
            final(self).cache_view() == old(self).cache_view(),
            final(self).has_cache() == old(self).has_cache(),
            v4_step(*old(self), *final(self), host.spec_bytes(), enhanced, r),
    {
        match parse_ipv4(host) {
            Some(a) => {
                return Ok(ResolveStep::Done(if a != 0 { Some(IpAddr::V4(a)) } else { None }));
            },
            None => {},
        }
        let hb = host.as_bytes();
        if enhanced {
            match &self.hosts {
                Some(t) => match t.search(hb) {
                    Some(v) => {
                        assert(self.hosts_best(host.spec_bytes(), *v));
                        return Ok(ResolveStep::Done(v4_of(*v)));
                    },
                    None => {},
                },
                None => {},
            }
            match &mut self.fake_dns {
                Some(f) => {
                    if !f.should_skip(hb) {
                        let ip = f.lookup(hb);
                        assert(self.cache_view() =~= old(self).cache_view());
                        return Ok(ResolveStep::Done(Some(IpAddr::V4(ip))));
                    }
                },
                None => {},
            }
        }
        match parse_fqdn(host) {
            Some(n) => Ok(ResolveStep::Lookup(DnsMessage::query(n, TYPE_A))),
            None => Err(DnsError::InvalidQuery),
        }
    }

    /// The IPv6 step of a lookup of `host`; see `v6_step`.
    pub fn resolve_v6(&self, host: &str, enhanced: bool) -> (r: Result<ResolveStep, DnsError>)
        requires
            self.wf(),
        ensures
            v6_step(*self, host.spec_bytes(), enhanced, r),
    {
        if !self.ipv6 {
            return Err(DnsError::Ipv6Disabled);
        }
        match parse_ipv6(host) {
            Some(a) => {
                return Ok(ResolveStep::Done(if a != 0 { Some(IpAddr::V6(a)) } else { None }));
            },
            None => {},
        }
        if enhanced {
            match &self.hosts {
                Some(t) => match t.search(host.as_bytes()) {
                    Some(v) => {
                        assert(self.hosts_best(host.spec_bytes(), *v));
                        return Ok(ResolveStep::Done(v6_of(*v)));
                    },
                    None => {},
                },
                None => {},
            }
        }
        match parse_fqdn(host) {
            Some(n) => Ok(ResolveStep::Lookup(DnsMessage::query(n, TYPE_AAAA))),
            None => Err(DnsError::InvalidQuery),
        }
    }

    /// The plan of a lookup of `host` of either family. A literal address of
    /// either family is its own answer; in enhanced mode a static host entry
    /// of either family comes next. Then, with IPv6 off, only the IPv4 step
    /// runs; with IPv6 on, the IPv6 and IPv4 steps run, to be raced and
    /// settled with `pick_dual`. Unspecified addresses are never given.
    pub fn resolve(&mut self, host: &str, enhanced: bool) -> (r: Result<ResolvePlan, DnsError>)
        requires
            old(self).wf(),
        ensures
            final(self).wf(),
            final(self).ipv6_spec() == old(self).ipv6_spec(),
            final(self).hosts_spec() == old(self).hosts_spec(),
            final(self).cache_view() == old(self).cache_view(),
            final(self).fake_spec() is Some == old(self).fake_spec() is Some,
            resolve_plan(*old(self), *final(self), host.spec_bytes(), enhanced, r),
    {
        match parse_ipv4(host) {
            Some(a) => {
                return Ok(ResolvePlan::Single(ResolveStep::Done(if a != 0 { Some(IpAddr::V4(a)) } else { None })));
            },
            None => {},
        }
        match parse_ipv6(host) {
            Some(a) => {
                return Ok(ResolvePlan::Single(ResolveStep::Done(if a != 0 { Some(IpAddr::V6(a)) } else { None })));
            },
            None => {},
        }
        if enhanced {
            match &self.hosts {
                Some(t) => match t.search(host.as_bytes()) {
                    Some(v) => {
                        assert(self.hosts_best(host.spec_bytes(), *v));
                        return Ok(ResolvePlan::Single(ResolveStep::Done(keep_specified(*v))));
                    },
                    None => {},
                },
                None => {},
            }
        }
        if !self.ipv6 {
            let s = self.resolve_v4(host, enhanced);
            return match s {
                Ok(step) => Ok(ResolvePlan::Single(step)),
                Err(e) => Err(e),
            };
        }
        let v6 = self.resolve_v6(host, enhanced);
        let v4 = self.resolve_v4(host, enhanced);
        Ok(ResolvePlan::Dual(v6, v4))
    }

    /// Whether IPv6 lookups are on.
    pub fn ipv6(&self) -> (r: bool)
        ensures
            r == self.ipv6_spec(),
    {
        self.ipv6
    }

    /// Switches IPv6 lookups on or off.
    pub fn set_ipv6(&mut self, enable: bool)
        requires
            old(self).wf(),
        ensures
            final(self).wf(),
            final(self).ipv6_spec() == enable,
            final(self).hosts_spec() == old(self).hosts_spec(),
            final(self).has_fallback_spec() == old(self).has_fallback_spec(),
            final(self).domain_filter_spec() == old(self).domain_filter_spec(),
            final(self).ip_filters_spec() == old(self).ip_filters_spec(),
            final(self).policy_spec() == old(self).policy_spec(),
            final(self).fake_spec() == old(self).fake_spec(),
            final(self).cache_view() == old(self).cache_view(),
    {
        self.ipv6 = enable;
        assert(self.cache_view() =~= old(self).cache_view());
    }

    pub fn kind(&self) -> (r: ResolverKind)
        ensures
            r == ResolverKind::Clash,
    {
        ResolverKind::Clash
    }

    /// Whether fake-IP mode is on.
    pub fn fake_ip_enabled(&self) -> (r: bool)
        ensures
            r == self.fake_spec() is Some,
    {
        self.fake_dns.is_some()
    }

    /// `ip` lies in the fake-IP block of a resolver in fake-IP mode.
    pub open spec fn is_fake_spec(&self, ip: IpAddr) -> bool {
        self.fake_spec() matches Some(f) && ip matches IpAddr::V4(a) && f.in_block(a)
    }

    /// Whether `ip` lies in the fake-IP block; false when fake-IP mode is off.
    pub fn is_fake_ip(&self, ip: IpAddr) -> (r: bool)
        requires
            self.wf(),
        ensures
            r == (self.fake_spec() matches Some(f) && ip matches IpAddr::V4(a) && f.in_block(a)),
    {
        match (&self.fake_dns, ip) {
            (Some(f), IpAddr::V4(a)) => f.is_fake_ip(a),
            _ => false,
        }
    }

    /// Whether a host is mapped to `ip`; false when fake-IP mode is off.
    pub fn fake_ip_exists(&self, ip: IpAddr) -> (r: bool)
        requires
            self.wf(),
        ensures
            r == (self.fake_spec() matches Some(f) && ip matches IpAddr::V4(a) && exists|h: Seq<u8>| f.mapped(h, a)),
    {
        match (&self.fake_dns, ip) {
            (Some(f), IpAddr::V4(a)) => f.exist(a),
            _ => false,
        }
    }

    /// Installs a fake-IP mapping kept from an earlier run; see
    /// `FakeDns::restore`. False when fake-IP mode is off.
    pub fn restore_fake_ip(&mut self, host: &[u8], ip: u32) -> (r: bool)
        requires
            old(self).wf(),
        ensures
            final(self).wf(),
            final(self).ipv6_spec() == old(self).ipv6_spec(),
            final(self).cache_view() == old(self).cache_view(),
            final(self).fake_spec() is Some == old(self).fake_spec() is Some,
            r ==> (final(self).fake_spec() matches Some(f) && f.mapped(host@, ip)),
            r == (old(self).fake_spec() matches Some(f) && (f.first_spec() <= ip <= f.last_spec()
                && (forall|i: u32| !f.mapped(host@, i)) && (forall|h: Seq<u8>| !f.mapped(h, ip)))),
            !r ==> final(self).fake_spec() == old(self).fake_spec(),
    {
        match &mut self.fake_dns {
            Some(f) => {
                let r = f.restore(host, ip);
                assert(self.cache_view() =~= old(self).cache_view());
                r
            },
            None => false,
        }
    }

    /// The host mapped to the fake address `ip`, if any.
    pub fn reverse_lookup(&self, ip: IpAddr) -> (r: Option<Vec<u8>>)
        requires
            self.wf(),
        ensures
            r matches Some(h) ==> self.fake_spec() matches Some(f) && ip matches IpAddr::V4(a) && f.mapped(h@, a),
            r is None ==> !(self.fake_spec() matches Some(f) && ip matches IpAddr::V4(a) && exists|h: Seq<u8>| f.mapped(h, a)),
            !self.is_fake_spec(ip) ==> r is None,
    {
        match (&self.fake_dns, ip) {
            (Some(f), IpAddr::V4(a)) => f.reverse_lookup(a),
            _ => None,
        }
    }
}

/// A question whose name matches a policy entry goes to that entry's upstream
/// group, and never to the main or the fallback pool.
pub proof fn lemma_policy_precedence(res: &Resolver, q: crate::message::QuestionView, route: Route)
    requires
        res.route_of(q, route),
        res.policy_hit(trim_dots(q.name)),
    ensures
        route matches Route::Policy(k) && res.policy_group(trim_dots(q.name), k),
        route != Route::Main,
        route != Route::Fallback,
        route != Route::MainAndFallback,
{
}

/// An address question whose name matches a fallback domain filter, and no
/// policy entry, goes to the fallback pool alone.
pub proof fn lemma_fallback_filter_short_circuit(res: &Resolver, q: crate::message::QuestionView, route: Route)
    requires
        res.route_of(q, route),
        !res.policy_hit(trim_dots(q.name)),
        is_ip_question(q),
        res.fallback_only(trim_dots(q.name)),
    ensures
        route == Route::Fallback,
{
}

/// When both pools answered and an IP filter applies to the first address of
/// main's answer, the race gives fallback's answer.
pub proof fn lemma_ip_filter_rewrite(
    res: &Resolver,
    main: DnsMessage,
    fallback: DnsMessage,
    country: Option<Seq<u8>>,
)
    requires
        ips_of(main.answers@).len() > 0,
        res.ip_fallback(ips_of(main.answers@)[0], country),
    ensures
        res.race_result(Ok(main), Ok(fallback), country) == Ok::<DnsMessage, DnsError>(fallback),
{
}

/// In fake-IP mode, an enhanced IPv4 step for a host that is no literal, has
/// no static entry and is not skipped gives an address of the pool, never
/// the network address, the one after it or the broadcast address; the
/// address is then mapped to that host alone, so a reverse lookup gives the
/// host back, and the host to that address alone, so a second lookup gives
/// the same address.
pub proof fn lemma_fake_resolve_round_trip(
    s0: Resolver,
    s1: Resolver,
    host: Seq<u8>,
    r: Result<ResolveStep, DnsError>,
)
    requires
        v4_step(s0, s1, host, true, r),
        ipv4_literal(host) is None,
        !s0.hosts_hit(host),
        s0.fake_spec() is Some,
        !s0.fake_skips(host),
    ensures
        r matches Ok(ResolveStep::Done(Some(IpAddr::V4(ip)))) && s1.fake_spec() matches Some(g) && {
            &&& g.mapped(host, ip)
            &&& !g.is_free(ip)
            &&& g.in_block(ip)
            &&& ip != g.network_spec() && ip != g.network_spec() + 1 && ip != g.broadcast_spec()
            &&& forall|h: Seq<u8>| g.mapped(h, ip) ==> h == host
            &&& forall|i: u32| g.mapped(host, i) ==> i == ip
        },
{
    let ip = r->Ok_0->Done_0->Some_0->V4_0;
    let g = s1.fake_spec()->Some_0;
    crate::fakeip::lemma_fake_ip_round_trip(&g, host, ip);
    crate::fakeip::lemma_fake_ip_pool_bounds(&g, host, ip);
}

proof fn lemma_host_prefix(hosts: Seq<(String, IpAddr)>, i: int)
    requires
        0 <= i < hosts.len(),
    ensures
        host_patterns(hosts.subrange(0, i + 1)) == host_patterns(hosts.subrange(0, i)).push(string_bytes(hosts[i].0)),
        host_values(hosts.subrange(0, i + 1)) == host_values(hosts.subrange(0, i)).push(hosts[i].1),
{
    assert(host_patterns(hosts.subrange(0, i + 1)) =~= host_patterns(hosts.subrange(0, i)).push(string_bytes(hosts[i].0)));
    assert(host_values(hosts.subrange(0, i + 1)) =~= host_values(hosts.subrange(0, i)).push(hosts[i].1));
}

/// The static hosts trie.
#[verifier::rlimit(80)]
fn hosts_trie(hosts: &Vec<(String, IpAddr)>) -> (r: StringTrie<IpAddr>)
    ensures
        r.wf(),
        built_from(r, host_patterns(hosts@), host_values(hosts@)),
{
    let mut t: StringTrie<IpAddr> = StringTrie::new();
    let mut i: usize = 0;
    proof {
        lemma_built_empty(t);
        assert(host_patterns(hosts@.subrange(0, 0)) =~= Seq::<Seq<u8>>::empty());
        assert(host_values(hosts@.subrange(0, 0)) =~= Seq::<IpAddr>::empty());
    }
    while i < hosts.len()
        invariant
            t.wf(),
            i <= hosts@.len(),
            built_from(t, host_patterns(hosts@.subrange(0, i as int)), host_values(hosts@.subrange(0, i as int))),
        decreases hosts@.len() - i,
    {
        let pat: &str = hosts[i].0.as_str();
        let ghost t0 = t;
        t.insert(pat, hosts[i].1);
        proof {
            let ps = host_patterns(hosts@.subrange(0, i as int));
            let vs = host_values(hosts@.subrange(0, i as int));
            assert(pat.spec_bytes() == string_bytes(hosts@[i as int].0));
            lemma_built_step(t0, t, ps, vs, string_bytes(hosts@[i as int].0), hosts@[i as int].1);
            lemma_host_prefix(hosts@, i as int);
        }
        i = i + 1;
    }
    proof {
        assert(hosts@.subrange(0, hosts@.len() as int) =~= hosts@);
    }
    t
}

/// The policy trie: entry `i` leads to upstream group `i`.
fn policy_trie(patterns: &Vec<String>) -> (r: StringTrie<usize>)
    ensures
        r.wf(),
        built_from(r, names_of(patterns@), indices(patterns@.len())),
{
    let mut t: StringTrie<usize> = StringTrie::new();
    let mut i: usize = 0;
    proof {
        lemma_built_empty(t);
        assert(names_of(patterns@.subrange(0, 0)) =~= Seq::<Seq<u8>>::empty());
        assert(indices(0) =~= Seq::<usize>::empty());
    }
    while i < patterns.len()
        invariant
            t.wf(),
            i <= patterns@.len(),
            built_from(t, names_of(patterns@.subrange(0, i as int)), indices(i as nat)),
        decreases patterns@.len() - i,
    {
        let pat: &str = patterns[i].as_str();
        let ghost t0 = t;
        t.insert(pat, i);
        proof {
            let ps = names_of(patterns@.subrange(0, i as int));
            assert(pat.spec_bytes() == string_bytes(patterns@[i as int]));
            lemma_built_step(t0, t, ps, indices(i as nat), string_bytes(patterns@[i as int]), i);
            assert(names_of(patterns@.subrange(0, i + 1)) =~= ps.push(string_bytes(patterns@[i as int])));
            assert(indices((i + 1) as nat) =~= indices(i as nat).push(i));
        }
        i = i + 1;
    }
    proof {
        assert(patterns@.subrange(0, patterns@.len() as int) =~= patterns@);
    }
    t
}

/// A step that, when it gives an address without the network, gives a
/// specified one.
pub open spec fn step_specified(st: Result<ResolveStep, DnsError>) -> bool {
    st matches Ok(ResolveStep::Done(Some(ip))) ==> specified(ip)
}

/// `resolve` never plans `0.0.0.0` or `::` as an answer: every address it
/// gives without the network is specified (and `finish_lookup` only picks
/// specified addresses from an upstream answer).
pub proof fn lemma_resolve_never_unspecified(s0: Resolver, s1: Resolver, host: Seq<u8>, enhanced: bool, r: Result<ResolvePlan, DnsError>)
    requires
        resolve_plan(s0, s1, host, enhanced, r),
    ensures
        r matches Ok(ResolvePlan::Single(st)) ==> step_specified(Ok(st)),
        r matches Ok(ResolvePlan::Dual(s6, s4)) ==> step_specified(s6) && step_specified(s4),
{
}

/// Dual-stack race: whichever lookup completes first with an address gives
/// the answer; when the first to complete fails or finds none, the other's
/// outcome is the answer.
pub proof fn lemma_dual_stack_race(first: Result<Option<IpAddr>, DnsError>, second: Result<Option<IpAddr>, DnsError>)
    ensures
        first matches Ok(Some(_)) ==> dual_outcome(first, second) == first,
        !(first matches Ok(Some(_))) ==> dual_outcome(first, second) == second,
{
}

/// On a fresh fake-IP engine (no mapping, cursor at the start of the pool),
/// the enhanced IPv4 step for a host that is no literal, has no static entry
/// and is not skipped gives the address two above the network address.
pub proof fn lemma_fresh_fake_first_mint(s0: Resolver, s1: Resolver, host: Seq<u8>, r: Result<ResolveStep, DnsError>)
    requires
        v4_step(s0, s1, host, true, r),
        ipv4_literal(host) is None,
        !s0.hosts_hit(host),
        s0.fake_spec() matches Some(f) && (f.wf() && f.cursor_spec() == f.first_spec() && forall|h: Seq<u8>, i: u32| !f.mapped(h, i)),
        !s0.fake_skips(host),
    ensures
        r matches Ok(ResolveStep::Done(Some(IpAddr::V4(ip)))) && ip == s0.fake_spec()->Some_0.network_spec() + 2,
{
    let f = s0.fake_spec()->Some_0;
    let ip = r->Ok_0->Done_0->Some_0->V4_0;
    crate::fakeip::lemma_fake_ip_pool_nonempty(&f);
    let a = f.first_spec() as u32;
    assert(f.is_free(a));
    assert(f.first_free_from_cursor(ip));
    if ip as int != f.first_spec() {
        assert(f.scan_offset(f.cursor_spec(), a as int) == 0);
        assert(!f.is_free(a));
    }
}

/// A set of domain patterns.
fn domain_set(domains: &Vec<String>) -> (r: StringTrie<bool>)
    ensures
        r.wf(),
        built_from(r, names_of(domains@), trues(domains@.len())),
{
    let mut t: StringTrie<bool> = StringTrie::new();
    let mut i: usize = 0;
    proof {
        lemma_built_empty(t);
        assert(names_of(domains@.subrange(0, 0)) =~= Seq::<Seq<u8>>::empty());
        assert(trues(0) =~= Seq::<bool>::empty());
    }
    while i < domains.len()
        invariant
            t.wf(),
            i <= domains@.len(),
            built_from(t, names_of(domains@.subrange(0, i as int)), trues(i as nat)),
        decreases domains@.len() - i,
    {
        let pat: &str = domains[i].as_str();
        let ghost t0 = t;
        t.insert(pat, true);
        proof {
            let ps = names_of(domains@.subrange(0, i as int));
            assert(pat.spec_bytes() == string_bytes(domains@[i as int]));
            lemma_built_step(t0, t, ps, trues(i as nat), string_bytes(domains@[i as int]), true);
            assert(names_of(domains@.subrange(0, i + 1)) =~= ps.push(string_bytes(domains@[i as int])));
            assert(trues((i + 1) as nat) =~= trues(i as nat).push(true));
        }
        i = i + 1;
    }
    proof {
        assert(domains@.subrange(0, domains@.len() as int) =~= domains@);
    }
    t
}

} // verus!
