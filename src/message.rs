use vstd::prelude::*;
use vstd::string::StringSliceAdditionalSpecFns;

use crate::trie::{dot, lower};

verus! {

/// Record type of an IPv4 address record.
pub const TYPE_A: u16 = 1;

/// Record type of a text record.
pub const TYPE_TXT: u16 = 16;

/// Record type of an IPv6 address record.
pub const TYPE_AAAA: u16 = 28;

/// The Internet class.
pub const CLASS_IN: u16 = 1;

/// An IP address: an IPv4 address as its 32-bit value, an IPv6 address as
/// its 128-bit value.
#[derive(Debug, Clone, Copy, PartialEq, Eq, Structural)]
pub enum IpAddr {
    V4(u32),
    V6(u128),
}

/// The data of a record, as far as the resolver reads it.
#[derive(Debug, Clone, Copy, PartialEq, Eq, Structural)]
pub enum RData {
    A(u32),
    Aaaa(u128),
    Other,
}

/// One resource record.
#[derive(Debug, Clone, Copy, PartialEq, Eq, Structural)]
pub struct DnsRecord {
    pub rtype: u16,
    pub ttl: u32,
    pub data: RData,
}

/// One question: a name in presentation form, its type and class.
#[derive(Debug, Clone)]
pub struct DnsQuestion {
    pub name: Vec<u8>,
    pub qtype: u16,
    pub qclass: u16,
}

/// A DNS message: the sections the resolver reads, and the message as it
/// came over the wire (empty for a message built here).
#[derive(Debug, Clone)]
pub struct DnsMessage {
    pub id: u16,
    pub recursion_desired: bool,
    pub queries: Vec<DnsQuestion>,
    pub answers: Vec<DnsRecord>,
    pub name_servers: Vec<DnsRecord>,
    pub additionals: Vec<DnsRecord>,
    pub wire: Vec<u8>,
}

pub struct QuestionView {
    pub name: Seq<u8>,
    pub qtype: u16,
    pub qclass: u16,
}

pub struct MessageView {
    pub id: u16,
    pub recursion_desired: bool,
    pub queries: Seq<QuestionView>,
    pub answers: Seq<DnsRecord>,
    pub name_servers: Seq<DnsRecord>,
    pub additionals: Seq<DnsRecord>,
    pub wire: Seq<u8>,
}

impl View for DnsQuestion {
    type V = QuestionView;

    open spec fn view(&self) -> QuestionView {
        QuestionView { name: self.name@, qtype: self.qtype, qclass: self.qclass }
    }
}

impl View for DnsMessage {
    type V = MessageView;

    open spec fn view(&self) -> MessageView {
        MessageView {
            id: self.id,
            recursion_desired: self.recursion_desired,
            queries: self.queries@.map_values(|q: DnsQuestion| q@),
            answers: self.answers@,
            name_servers: self.name_servers@,
            additionals: self.additionals@,
            wire: self.wire@,
        }
    }
}

/// The cache key of a question: its name in lower case with a trailing dot,
/// its class and its type.
pub type Fingerprint = (Vec<u8>, u16, u16);

/// `s` with a trailing dot, unless it already ends with one.
pub open spec fn with_trailing_dot(s: Seq<u8>) -> Seq<u8> {
    if s.len() > 0 && s.last() == dot() {
        s
    } else {
        s.push(dot())
    }
}

pub open spec fn fingerprint_of(q: QuestionView) -> (Seq<u8>, u16, u16) {
    (lower(with_trailing_dot(q.name)), q.qclass, q.qtype)
}

/// The addresses carried by A and AAAA records, in order.
pub open spec fn ips_of(recs: Seq<DnsRecord>) -> Seq<IpAddr>
    decreases recs.len(),
{
    if recs.len() == 0 {
        Seq::empty()
    } else {
        let rest = ips_of(recs.drop_last());
        let r = recs.last();
        if r.rtype == TYPE_A && r.data is A {
            rest.push(IpAddr::V4(r.data->A_0))
        } else if r.rtype == TYPE_AAAA && r.data is Aaaa {
            rest.push(IpAddr::V6(r.data->Aaaa_0))
        } else {
            rest
        }
    }
}

/// The smallest TTL of a section, 0 when it is empty.
pub open spec fn min_ttl_of(recs: Seq<DnsRecord>) -> u32
    decreases recs.len(),
{
    if recs.len() == 0 {
        0
    } else if recs.len() == 1 {
        recs[0].ttl
    } else {
        let m = min_ttl_of(recs.drop_last());
        if recs.last().ttl < m {
            recs.last().ttl
        } else {
            m
        }
    }
}

/// The smallest TTL of the first non-empty section among answers, authority
/// and additional records.
pub open spec fn message_min_ttl(m: MessageView) -> u32 {
    if m.answers.len() != 0 {
        min_ttl_of(m.answers)
    } else if m.name_servers.len() != 0 {
        min_ttl_of(m.name_servers)
    } else {
        min_ttl_of(m.additionals)
    }
}

/// A question of class IN for an A or AAAA record.
pub open spec fn is_ip_question(q: QuestionView) -> bool {
    q.qclass == CLASS_IN && (q.qtype == TYPE_A || q.qtype == TYPE_AAAA)
}

/// `s` without its leading dots.
pub open spec fn trim_start_dots(s: Seq<u8>) -> Seq<u8>
    decreases s.len(),
{
    if s.len() > 0 && s[0] == dot() {
        trim_start_dots(s.subrange(1, s.len() as int))
    } else {
        s
    }
}

/// `s` without its trailing dots.
pub open spec fn trim_end_dots(s: Seq<u8>) -> Seq<u8>
    decreases s.len(),
{
    if s.len() > 0 && s.last() == dot() {
        trim_end_dots(s.drop_last())
    } else {
        s
    }
}

/// `s` without leading or trailing dots.
pub open spec fn trim_dots(s: Seq<u8>) -> Seq<u8> {
    trim_start_dots(trim_end_dots(s))
}

pub open spec fn acme_prefix() -> Seq<u8> {
    seq![95u8, 97u8, 99u8, 109u8, 101u8, 45u8, 99u8, 104u8, 97u8, 108u8, 108u8, 101u8, 110u8, 103u8, 101u8, 46u8]
}

/// A name, class and type of a TXT question whose name starts with
/// `_acme-challenge.`.
pub open spec fn is_uncacheable_key(k: (Seq<u8>, u16, u16)) -> bool {
    k.2 == TYPE_TXT && k.0.len() >= acme_prefix().len() && k.0.subrange(0, acme_prefix().len() as int) == acme_prefix()
}

/// Answers to `q` never enter the cache: a TXT question whose name, as
/// written, starts with `_acme-challenge.`.
pub open spec fn is_uncacheable(q: QuestionView) -> bool {
    is_uncacheable_key((q.name, q.qclass, q.qtype))
}

/// The name that `hickory_proto` gives the host `s` when parsed leniently and
/// made fully qualified, in its ASCII form; `None` when it is no valid name.
pub uninterp spec fn relaxed_fqdn(s: Seq<u8>) -> Option<Seq<u8>>;

/// Relies on `hickory_proto::rr::Name::from_str_relaxed`, `Name::append_domain`
/// with the root name, and `Name::to_ascii`: the result depends on the host alone.
#[verifier::external_body]
pub(crate) fn parse_fqdn(host: &str) -> (r: Option<Vec<u8>>)
    ensures
        r matches Some(v) ==> relaxed_fqdn(host.spec_bytes()) == Some(v@),
        r is None ==> relaxed_fqdn(host.spec_bytes()) is None,
{
    let root = hickory_proto::rr::Name::root();
    match hickory_proto::rr::Name::from_str_relaxed(host) {
        Ok(n) => match n.append_domain(&root) {
            Ok(f) => Some(f.to_ascii().into_bytes()),
            Err(_) => None,
        },
        Err(_) => None,
    }
}

impl DnsQuestion {
    /// A copy of the question.
    pub fn duplicate(&self) -> (r: DnsQuestion)
        ensures
            r@ == self@,
    {
        DnsQuestion { name: self.name.clone(), qtype: self.qtype, qclass: self.qclass }
    }
}

fn copy_records(v: &Vec<DnsRecord>) -> (r: Vec<DnsRecord>)
    ensures
        r@ == v@,
{
    let mut r: Vec<DnsRecord> = Vec::new();
    let mut i: usize = 0;
    while i < v.len()
        invariant
            i <= v@.len(),
            r@ == v@.subrange(0, i as int),
        decreases v@.len() - i,
    {
        r.push(v[i]);
        proof {
            assert(v@.subrange(0, i + 1) =~= v@.subrange(0, i as int).push(v@[i as int]));
        }
        i = i + 1;
    }
    proof {
        assert(v@.subrange(0, v@.len() as int) =~= v@);
    }
    r
}

impl DnsMessage {
    /// A copy of the message.
    pub fn duplicate(&self) -> (r: DnsMessage)
        ensures
            r@ == self@,
    {
        let mut queries: Vec<DnsQuestion> = Vec::new();
        let mut i: usize = 0;
        while i < self.queries.len()
            invariant
                i <= self.queries@.len(),
                queries@.len() == i,
                forall|j: int| 0 <= j < i ==> #[trigger] queries@[j]@ == self.queries@[j]@,
            decreases self.queries@.len() - i,
        {
            let q = self.queries[i].duplicate();
            queries.push(q);
            i = i + 1;
        }
        proof {
            assert(queries@.map_values(|q: DnsQuestion| q@) =~= self.queries@.map_values(|q: DnsQuestion| q@));
        }
        DnsMessage {
            id: self.id,
            recursion_desired: self.recursion_desired,
            queries,
            answers: copy_records(&self.answers),
            name_servers: copy_records(&self.name_servers),
            additionals: copy_records(&self.additionals),
            wire: self.wire.clone(),
        }
    }

    /// A recursive query for `name` of type `qtype`, class IN.
    pub fn query(name: Vec<u8>, qtype: u16) -> (r: DnsMessage)
        ensures
            r@.queries.len() == 1,
            r@.queries[0] == (QuestionView { name: name@, qtype, qclass: CLASS_IN }),
            r@.recursion_desired,
            r@.answers.len() == 0,
            r@.name_servers.len() == 0,
            r@.additionals.len() == 0,
    {
        let mut queries: Vec<DnsQuestion> = Vec::new();
        queries.push(DnsQuestion { name, qtype, qclass: CLASS_IN });
        DnsMessage {
            id: 0,
            recursion_desired: true,
            queries,
            answers: Vec::new(),
            name_servers: Vec::new(),
            additionals: Vec::new(),
            wire: Vec::new(),
        }
    }

    /// The addresses of the A and AAAA records of the answer section.
    pub fn ip_list_of_message(&self) -> (r: Vec<IpAddr>)
        ensures
            r@ == ips_of(self.answers@),
    {
        let mut r: Vec<IpAddr> = Vec::new();
        let mut i: usize = 0;
        while i < self.answers.len()
            invariant
                i <= self.answers@.len(),
                r@ == ips_of(self.answers@.subrange(0, i as int)),
            decreases self.answers@.len() - i,
        {
            let rec = self.answers[i];
            proof {
                assert(self.answers@.subrange(0, i + 1).drop_last() =~= self.answers@.subrange(0, i as int));
            }
            if rec.rtype == TYPE_A {
                match rec.data {
                    RData::A(v) => r.push(IpAddr::V4(v)),
                    _ => {},
                }
            } else if rec.rtype == TYPE_AAAA {
                match rec.data {
                    RData::Aaaa(v) => r.push(IpAddr::V6(v)),
                    _ => {},
                }
            }
            i = i + 1;
        }
        proof {
            assert(self.answers@.subrange(0, self.answers@.len() as int) =~= self.answers@);
        }
        r
    }

    /// The smallest TTL of the first non-empty section.
    pub fn min_ttl(&self) -> (r: u32)
        ensures
            r == message_min_ttl(self@),
    {
        if self.answers.len() != 0 {
            min_ttl_in(&self.answers)
        } else if self.name_servers.len() != 0 {
            min_ttl_in(&self.name_servers)
        } else {
            min_ttl_in(&self.additionals)
        }
    }

    /// The name of the first question without leading or trailing dots.
    pub fn domain_name_of_message(&self) -> (r: Option<Vec<u8>>)
        ensures
            self@.queries.len() == 0 ==> r is None,
            self@.queries.len() > 0 ==> (r matches Some(n) && n@ == trim_dots(self@.queries[0].name)),
    {
        if self.queries.len() == 0 {
            return None;
        }
        Some(trim_name(self.queries[0].name.as_slice()))
    }
}

fn min_ttl_in(recs: &Vec<DnsRecord>) -> (r: u32)
    ensures
        r == min_ttl_of(recs@),
{
    if recs.len() == 0 {
        return 0;
    }
    let mut m: u32 = recs[0].ttl;
    let mut i: usize = 1;
    proof {
        assert(recs@.subrange(0, 1).len() == 1);
        assert(recs@.subrange(0, 1)[0] == recs@[0]);
        assert(min_ttl_of(recs@.subrange(0, 1)) == recs@[0].ttl);
        assert(m == recs@[0].ttl);
    }
    while i < recs.len()
        invariant
            1 <= i <= recs@.len(),
            m == min_ttl_of(recs@.subrange(0, i as int)),
        decreases recs@.len() - i,
    {
        proof {
            assert(recs@.subrange(0, i + 1).drop_last() =~= recs@.subrange(0, i as int));
        }
        if recs[i].ttl < m {
            m = recs[i].ttl;
        }
        i = i + 1;
    }
    proof {
        assert(recs@.subrange(0, recs@.len() as int) =~= recs@);
    }
    m
}

/// `s` without leading or trailing dots.
pub fn trim_name(s: &[u8]) -> (r: Vec<u8>)
    ensures
        r@ == trim_dots(s@),
{
    let mut hi: usize = s.len();
    proof {
        assert(s@.subrange(0, s@.len() as int) =~= s@);
    }
    while hi > 0 && s[hi - 1] == 46
        invariant
            hi <= s@.len(),
            trim_end_dots(s@) == trim_end_dots(s@.subrange(0, hi as int)),
        decreases hi,
    {
        proof {
            assert(s@.subrange(0, hi as int).drop_last() =~= s@.subrange(0, hi - 1));
        }
        hi = hi - 1;
    }
    let mut lo: usize = 0;
    proof {
        assert(trim_end_dots(s@.subrange(0, hi as int)) == s@.subrange(0, hi as int));
        assert(s@.subrange(0, hi as int).subrange(0, hi as int) =~= s@.subrange(0, hi as int));
    }
    while lo < hi && s[lo] == 46
        invariant
            lo <= hi <= s@.len(),
            trim_dots(s@) == trim_start_dots(s@.subrange(lo as int, hi as int)),
        decreases hi - lo,
    {
        proof {
            assert(s@.subrange(lo as int, hi as int).subrange(1, hi - lo) =~= s@.subrange(lo + 1, hi as int));
        }
        lo = lo + 1;
    }
    let mut r: Vec<u8> = Vec::new();
    let mut i: usize = lo;
    while i < hi
        invariant
            lo <= i <= hi <= s@.len(),
            r@ == s@.subrange(lo as int, i as int),
        decreases hi - i,
    {
        r.push(s[i]);
        proof {
            assert(s@.subrange(lo as int, i + 1) =~= s@.subrange(lo as int, i as int).push(s@[i as int]));
        }
        i = i + 1;
    }
    r
}

/// Whether `q` is an A or AAAA question of class IN.
pub fn is_ip_request(q: &DnsQuestion) -> (r: bool)
    ensures
        r == is_ip_question(q@),
{
    q.qclass == CLASS_IN && (q.qtype == TYPE_A || q.qtype == TYPE_AAAA)
}

/// Whether answers to `q` must stay out of the cache.
pub fn is_uncacheable_question(q: &DnsQuestion) -> (r: bool)
    ensures
        r == is_uncacheable(q@),
{
    let k: Fingerprint = (q.name.clone(), q.qclass, q.qtype);
    is_uncacheable_fingerprint(&k)
}

/// Whether a name, class and type are those of a TXT question for an
/// `_acme-challenge.` name.
pub fn is_uncacheable_fingerprint(k: &Fingerprint) -> (r: bool)
    ensures
        r == is_uncacheable_key((k.0@, k.1, k.2)),
{
    let ghost kv = (k.0@, k.1, k.2);
    assert(acme_prefix().len() == 16);
    if k.2 != TYPE_TXT {
        return false;
    }
    let p: [u8; 16] = [95, 97, 99, 109, 101, 45, 99, 104, 97, 108, 108, 101, 110, 103, 101, 46];
    proof {
        assert(p@ =~= acme_prefix());
    }
    let name = &k.0;
    if name.len() < 16 {
        return false;
    }
    let mut i: usize = 0;
    while i < 16
        invariant
            i <= 16,
            name@.len() >= 16,
            name@ == k.0@,
            kv == (k.0@, k.1, k.2),
            k.2 == TYPE_TXT,
            p@ == acme_prefix(),
            forall|j: int| 0 <= j < i ==> name@[j] == p@[j],
        decreases 16 - i,
    {
        if name[i] != p[i] {
            proof {
                assert(name@.subrange(0, 16)[i as int] != acme_prefix()[i as int]);
                assert(name@.subrange(0, 16) != acme_prefix());
                assert(kv.0 == name@);
            }
            return false;
        }
        i = i + 1;
    }
    proof {
        assert(name@.subrange(0, 16) =~= acme_prefix());
        assert(kv.0 == name@);
    }
    true
}

/// The cache key of `q`.
pub fn fingerprint(q: &DnsQuestion) -> (r: Fingerprint)
    ensures
        (r.0@, r.1, r.2) == fingerprint_of(q@),
{
    let mut name = q.name.clone();
    let n = name.len();
    if n == 0 || name[n - 1] != 46 {
        name.push(46);
    }
    proof {
        assert(name@ == with_trailing_dot(q.name@));
    }
    (crate::trie::to_lower(name.as_slice()), q.qclass, q.qtype)
}

} // verus!
