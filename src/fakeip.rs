use vstd::prelude::*;

use crate::trie::{lower, StringTrie};
use vstd::slice::slice_to_vec;

verus! {

pub open spec fn pow2(n: nat) -> nat
    decreases n,
{
    if n == 0 {
        1
    } else {
        2 * pow2((n - 1) as nat)
    }
}

proof fn lemma_pow2_add(a: nat, b: nat)
    ensures
        pow2(a) * pow2(b) == pow2(a + b),
        pow2(a) >= 1,
    decreases a,
{
    if a > 0 {
        let a1 = (a - 1) as nat;
        lemma_pow2_add(a1, b);
        assert(pow2(a) == 2 * pow2(a1));
        assert(a + b == (a1 + b) + 1);
        assert(pow2(a + b) == 2 * pow2(a1 + b));
        let x = pow2(a1);
        let y = pow2(b);
        assert((2 * x) * y == 2 * (x * y)) by (nonlinear_arith);
    } else {
        assert(pow2(0) == 1);
        assert(a + b == b);
    }
}

proof fn lemma_pow2_32()
    ensures
        pow2(32) == 0x1_0000_0000,
{
    reveal_with_fuel(pow2, 33);
}

proof fn lemma_network_fits(a: int, size: int, p2: int)
    requires
        0 <= a < 0x1_0000_0000,
        size > 0,
        size * p2 == 0x1_0000_0000,
    ensures
        a % size <= a,
        (a - a % size) + size <= 0x1_0000_0000,
{
    let q = a / size;
    assert(a == q * size + a % size && 0 <= a % size < size) by (nonlinear_arith)
        requires
            size > 0,
            q == a / size,
    ;
    assert(q < p2) by (nonlinear_arith)
        requires
            a == q * size + a % size,
            0 <= a % size,
            a < size * p2,
            size > 0,
    ;
    assert(q * size + size <= 0x1_0000_0000) by (nonlinear_arith)
        requires
            q + 1 <= p2,
            size * p2 == 0x1_0000_0000,
            size > 0,
    ;
}

/// Why a fake-IP engine could not be built.
#[derive(Debug, Clone, Copy, PartialEq, Eq)]
pub enum FakeIpError {
    /// The prefix leaves fewer than one address between the two reserved
    /// low addresses and the broadcast address.
    RangeTooSmall,
}

/// One mapping of the engine: a host, its synthetic address, and the tick of
/// its last access.
pub struct FakeRecord {
    pub host: Vec<u8>,
    pub ip: u32,
    pub last_access: u64,
}

/// Deterministic host to synthetic IPv4 mapping over a CIDR block.
pub struct FakeDns {
    network: u32,
    size: u64,
    cursor: u32,
    clock: u64,
    records: Vec<FakeRecord>,
    skipped: Option<StringTrie<bool>>,
}

impl FakeDns {
    /// The network address of the block.
    pub closed spec fn network_spec(&self) -> int {
        self.network as int
    }

    /// The number of addresses in the block.
    pub closed spec fn size_spec(&self) -> int {
        self.size as int
    }

    /// The broadcast address of the block.
    pub open spec fn broadcast_spec(&self) -> int {
        self.network_spec() + self.size_spec() - 1
    }

    /// Lowest address that may be handed out: two above the network address.
    pub open spec fn first_spec(&self) -> int {
        self.network_spec() + 2
    }

    /// Highest address that may be handed out: one below the broadcast address.
    pub open spec fn last_spec(&self) -> int {
        self.broadcast_spec() - 1
    }

    /// `ip` lies in the block.
    pub open spec fn in_block(&self, ip: u32) -> bool {
        self.network_spec() <= ip && ip <= self.broadcast_spec()
    }

    /// `host` is currently mapped to `ip`.
    pub closed spec fn mapped(&self, host: Seq<u8>, ip: u32) -> bool {
        exists|i: int| 0 <= i < self.records@.len() && #[trigger] self.records@[i].host@ == host
            && self.records@[i].ip == ip
    }

    /// `r` is the first free pool address met when scanning forward from the
    /// cursor, wrapping from the last address to the first.
    pub open spec fn first_free_from_cursor(&self, r: u32) -> bool {
        &&& self.is_free(r)
        &&& forall|a: u32| self.first_spec() <= a <= self.last_spec()
            && self.scan_offset(self.cursor_spec(), a as int) < self.scan_offset(self.cursor_spec(), r as int)
            ==> !(#[trigger] self.is_free(a))
    }

    /// Where the next scan for a free address starts.
    pub closed spec fn cursor_spec(&self) -> int {
        self.cursor as int
    }

    /// No host is mapped to `a`.
    pub open spec fn is_free(&self, a: u32) -> bool {
        forall|h: Seq<u8>| !self.mapped(h, a)
    }

    /// `host` holds the least recently accessed mapping.
    pub closed spec fn least_recent(&self, host: Seq<u8>) -> bool {
        exists|j: int| 0 <= j < self.records@.len() && #[trigger] self.records@[j].host@ == host
            && forall|k: int| 0 <= k < self.records@.len() ==> self.records@[j].last_access <= #[trigger] self.records@[k].last_access
    }

    /// Position of pool address `a` in a scan that starts at `c` and wraps
    /// from the last address to the first.
    pub open spec fn scan_offset(&self, c: int, a: int) -> int {
        if a >= c {
            a - c
        } else {
            a - self.first_spec() + (self.last_spec() - c + 1)
        }
    }

    /// The patterns of hosts that are never given a synthetic address.
    pub closed spec fn skipped_spec(&self) -> Option<StringTrie<bool>> {
        self.skipped
    }

    pub closed spec fn wf(&self) -> bool {
        &&& 4 <= self.size
        &&& self.network as int + self.size <= 0x1_0000_0000
        &&& self.first_spec() <= self.cursor <= self.last_spec()
        &&& forall|i: int| #![auto] 0 <= i < self.records@.len() ==> {
            &&& self.first_spec() <= self.records@[i].ip <= self.last_spec()
            &&& self.records@[i].last_access <= self.clock
        }
        &&& forall|i: int, j: int| #![auto] 0 <= i < j < self.records@.len() ==> {
            &&& self.records@[i].ip != self.records@[j].ip
            &&& self.records@[i].host@ != self.records@[j].host@
        }
        &&& self.skipped matches Some(t) ==> t.wf()
    }

    /// An engine over the block of `addr` with prefix length `prefix`; the
    /// block must hold at least four addresses (a prefix of at most 30).
    pub fn new(addr: u32, prefix: u32, skipped: Option<StringTrie<bool>>) -> (r: Result<FakeDns, FakeIpError>)
        requires
            skipped matches Some(t) ==> t.wf(),
        ensures
            prefix > 30 <==> r is Err,
            r matches Ok(e) ==> {
                &&& e.wf()
                &&& e.size_spec() == pow2((32 - prefix) as nat)
                &&& e.network_spec() == addr as int - (addr as int) % e.size_spec()
                &&& forall|h: Seq<u8>, ip: u32| !e.mapped(h, ip)
                &&& e.cursor_spec() == e.first_spec()
                &&& e.skipped_spec() == skipped
            },
    {
        if prefix > 30 {
            return Err(FakeIpError::RangeTooSmall);
        }
        let bits: u32 = 32 - prefix;
        let mut size: u64 = 1;
        let mut k: u32 = 0;
        while k < bits
            invariant
                k <= bits <= 32,
                size == pow2(k as nat),
                size <= 0x1_0000_0000,
            decreases bits - k,
        {
            proof {
                lemma_pow2_32();
                lemma_pow2_add(k as nat + 1, (31 - k) as nat);
                lemma_pow2_add((31 - k) as nat, 0);
                assert(pow2((k + 1) as nat) == 2 * pow2(k as nat));
                let x = pow2((k + 1) as nat);
                let y = pow2((31 - k) as nat);
                assert(x <= 0x1_0000_0000) by (nonlinear_arith)
                    requires
                        x * y == 0x1_0000_0000,
                        y >= 1,
                ;
            }
            size = size * 2;
            k = k + 1;
        }
        proof {
            lemma_pow2_add(bits as nat, prefix as nat);
            lemma_pow2_add(2, (bits - 2) as nat);
            assert(pow2(2) == 4) by {
                assert(pow2(0) == 1);
                assert(pow2(1) == 2);
            }
        }
        let a: u64 = addr as u64;
        proof {
            lemma_pow2_32();
            lemma_network_fits(a as int, size as int, pow2(prefix as nat) as int);
        }
        let network: u64 = a - a % size;
        proof {
            let p4 = pow2((bits - 2) as nat);
            lemma_pow2_add((bits - 2) as nat, 0);
            assert(size >= 4) by (nonlinear_arith)
                requires
                    4 * p4 == size,
                    p4 >= 1,
            ;
        }
        assert(network + 2 <= 0xFFFF_FFFF);
        let network32: u32 = network as u32;
        Ok(FakeDns {
            network: network32,
            size,
            cursor: network32 + 2,
            clock: 1,
            records: Vec::new(),
            skipped,
        })
    }

    /// Whether `ip` lies in the configured block.
    pub fn is_fake_ip(&self, ip: u32) -> (r: bool)
        requires
            self.wf(),
        ensures
            r == self.in_block(ip),
    {
        let v = ip as u64;
        (self.network as u64) <= v && v < self.network as u64 + self.size
    }

    /// Index of the record of `host`, if any.
    fn find_host(&self, host: &[u8]) -> (r: Option<usize>)
        requires
            self.wf(),
        ensures
            r matches Some(i) ==> i < self.records@.len() && self.records@[i as int].host@ == host@,
            r is None ==> forall|i: int| #![auto] 0 <= i < self.records@.len() ==> self.records@[i].host@ != host@,
    {
        let mut i: usize = 0;
        while i < self.records.len()
            invariant
                i <= self.records@.len(),
                forall|j: int| #![auto] 0 <= j < i ==> self.records@[j].host@ != host@,
            decreases self.records@.len() - i,
        {
            if bytes_equal(self.records[i].host.as_slice(), host) {
                return Some(i);
            }
            i = i + 1;
        }
        None
    }

    /// Index of the record of `ip`, if any.
    fn find_ip(&self, ip: u32) -> (r: Option<usize>)
        ensures
            r matches Some(i) ==> i < self.records@.len() && self.records@[i as int].ip == ip,
            r is None ==> forall|i: int| #![auto] 0 <= i < self.records@.len() ==> self.records@[i].ip != ip,
    {
        let mut i: usize = 0;
        while i < self.records.len()
            invariant
                i <= self.records@.len(),
                forall|j: int| #![auto] 0 <= j < i ==> self.records@[j].ip != ip,
            decreases self.records@.len() - i,
        {
            if self.records[i].ip == ip {
                return Some(i);
            }
            i = i + 1;
        }
        None
    }

    /// Whether some host is mapped to `ip`.
    pub fn exist(&self, ip: u32) -> (r: bool)
        requires
            self.wf(),
        ensures
            r == exists|h: Seq<u8>| self.mapped(h, ip),
    {
        match self.find_ip(ip) {
            Some(i) => {
                proof {
                    assert(self.mapped(self.records@[i as int].host@, ip));
                }
                true
            },
            None => false,
        }
    }

    /// The host mapped to `ip`; `None` outside the block or when unmapped.
    pub fn reverse_lookup(&self, ip: u32) -> (r: Option<Vec<u8>>)
        requires
            self.wf(),
        ensures
            r matches Some(h) ==> self.mapped(h@, ip),
            r is None <==> forall|h: Seq<u8>| !self.mapped(h, ip),
            !self.in_block(ip) ==> r is None,
    {
        if !self.is_fake_ip(ip) {
            return None;
        }
        match self.find_ip(ip) {
            Some(i) => {
                let h = self.records[i].host.clone();
                proof {
                    assert(self.mapped(h@, ip));
                }
                Some(h)
            },
            None => None,
        }
    }

    /// Whether `host` matches a pattern of the skipped hostnames.
    pub fn should_skip(&self, host: &[u8]) -> (r: bool)
        requires
            self.wf(),
        ensures
            r == (self.skipped_spec() matches Some(t) && t.any_match(lower(host@))),
    {
        match &self.skipped {
            Some(t) => t.search(host).is_some(),
            None => false,
        }
    }

    fn tick(&mut self) -> (t: u64)
        ensures
            t == old(self).clock,
            final(self).clock >= old(self).clock,
            final(self).network == old(self).network,
            final(self).size == old(self).size,
            final(self).cursor == old(self).cursor,
            final(self).records == old(self).records,
            final(self).skipped == old(self).skipped,
    {
        let t = self.clock;
        if self.clock < u64::MAX {
            self.clock = self.clock + 1;
        }
        t
    }

    /// The address after `ip` in the pool, wrapping from the last to the first.
    fn next_in_pool(&self, ip: u32) -> (r: u32)
        requires
            self.wf(),
            self.first_spec() <= ip <= self.last_spec(),
        ensures
            self.first_spec() <= r <= self.last_spec(),
            r == if ip == self.last_spec() { self.first_spec() } else { ip + 1 },
    {
        let last: u64 = self.network as u64 + self.size - 2;
        if ip as u64 == last {
            self.network + 2
        } else {
            ip + 1
        }
    }

    /// Index of the least recently accessed record.
    fn oldest(&self) -> (r: usize)
        requires
            self.records@.len() > 0,
        ensures
            r < self.records@.len(),
            forall|j: int| #![auto] 0 <= j < self.records@.len() ==> self.records@[r as int].last_access <= self.records@[j].last_access,
    {
        let mut best: usize = 0;
        let mut i: usize = 1;
        while i < self.records.len()
            invariant
                1 <= i <= self.records@.len(),
                best < i,
                forall|j: int| #![auto] 0 <= j < i ==> self.records@[best as int].last_access <= self.records@[j].last_access,
            decreases self.records@.len() - i,
        {
            if self.records[i].last_access < self.records[best].last_access {
                best = i;
            }
            i = i + 1;
        }
        best
    }

    /// Installs a mapping kept from an earlier run: done, and true, when `ip`
    /// may be handed out and neither `host` nor `ip` is mapped yet; otherwise
    /// nothing changes and the result is false.
    pub fn restore(&mut self, host: &[u8], ip: u32) -> (r: bool)
        requires
            old(self).wf(),
        ensures
            final(self).wf(),
            final(self).network_spec() == old(self).network_spec(),
            final(self).size_spec() == old(self).size_spec(),
            final(self).skipped_spec() == old(self).skipped_spec(),
            r == (old(self).first_spec() <= ip <= old(self).last_spec() && (forall|i: u32| !old(self).mapped(host@, i))
                && (forall|h: Seq<u8>| !old(self).mapped(h, ip))),
            r ==> final(self).mapped(host@, ip),
            !r ==> *final(self) == *old(self),
            forall|h: Seq<u8>, i: u32| old(self).mapped(h, i) ==> final(self).mapped(h, i),
            forall|h: Seq<u8>, i: u32| #![auto] final(self).mapped(h, i) ==> old(self).mapped(h, i) || (r && h == host@ && i == ip),
    {
        let first: u64 = self.network as u64 + 2;
        let last: u64 = self.network as u64 + self.size - 2;
        if (ip as u64) < first || (ip as u64) > last {
            return false;
        }
        match self.find_host(host) {
            Some(k) => {
                proof {
                    assert(self.mapped(host@, self.records@[k as int].ip));
                }
                return false;
            },
            None => {},
        }
        match self.find_ip(ip) {
            Some(k) => {
                proof {
                    assert(self.mapped(self.records@[k as int].host@, ip));
                }
                return false;
            },
            None => {},
        }
        let t = self.tick();
        let h = slice_to_vec(host);
        let ghost before = self.records@;
        self.records.push(FakeRecord { host: h, ip, last_access: t });
        proof {
            let n = before.len() as int;
            assert(self.records@[n].host@ == host@);
            assert(self.mapped(host@, ip));
            assert forall|h2: Seq<u8>, i2: u32| old(self).mapped(h2, i2) implies self.mapped(h2, i2) by {
                let j = choose|j: int| 0 <= j < before.len() && #[trigger] before[j].host@ == h2 && before[j].ip == i2;
                assert(self.records@[j] == before[j]);
            }
            assert forall|h2: Seq<u8>, i2: u32| #![auto] self.mapped(h2, i2) implies old(self).mapped(h2, i2) || (h2 == host@ && i2 == ip) by {
                let j = choose|j: int| 0 <= j < self.records@.len() && #[trigger] self.records@[j].host@ == h2 && self.records@[j].ip == i2;
                if j < n {
                    assert(before[j].host@ == h2);
                }
            }
            assert forall|i2: u32| !old(self).mapped(host@, i2) by {
                if old(self).mapped(host@, i2) {
                    let j = choose|j: int| 0 <= j < before.len() && #[trigger] before[j].host@ == host@ && before[j].ip == i2;
                }
            }
            assert forall|h2: Seq<u8>| !old(self).mapped(h2, ip) by {
                if old(self).mapped(h2, ip) {
                    let j = choose|j: int| 0 <= j < before.len() && #[trigger] before[j].host@ == h2 && before[j].ip == ip;
                }
            }
        }
        true
    }

    /// The synthetic address of `host`. An existing mapping is kept and its
    /// access refreshed. Otherwise the pool is scanned from the cursor for the
    /// first address with no host; when none is free the least recently
    /// accessed mapping is dropped and its address reused.
    pub fn lookup(&mut self, host: &[u8]) -> (r: u32)
        requires
            old(self).wf(),
        ensures
            final(self).wf(),
            final(self).network_spec() == old(self).network_spec(),
            final(self).size_spec() == old(self).size_spec(),
            final(self).skipped_spec() == old(self).skipped_spec(),
            final(self).mapped(host@, r),
            old(self).first_spec() <= r <= old(self).last_spec(),
            forall|ip: u32| old(self).mapped(host@, ip) ==> r == ip,
            forall|h: Seq<u8>, ip: u32| #![auto] final(self).mapped(h, ip) && h != host@ ==> old(self).mapped(h, ip),
            (exists|a: u32| old(self).first_spec() <= a <= old(self).last_spec() && #[trigger] old(self).is_free(a))
                ==> forall|h: Seq<u8>, ip: u32| old(self).mapped(h, ip) ==> final(self).mapped(h, ip),
            forall|h: Seq<u8>, ip: u32| old(self).mapped(h, ip) && !final(self).mapped(h, ip) ==> old(self).least_recent(h),
            2 <= r,
            (forall|i: u32| !old(self).mapped(host@, i)) && (exists|a: u32| old(self).first_spec() <= a <= old(self).last_spec() && #[trigger] old(self).is_free(a))
                ==> old(self).first_free_from_cursor(r),
    {
        match self.find_host(host) {
            Some(i) => {
                let t = self.tick();
                let ip = self.records[i].ip;
                let ghost before = self.records@;
                let h = self.records[i].host.clone();
                self.records.set(i, FakeRecord { host: h, ip, last_access: t });
                proof {
                    assert(self.mapped(host@, ip)) by {
                        assert(self.records@[i as int].host@ == host@);
                    }
                    assert forall|ip2: u32| old(self).mapped(host@, ip2) implies ip == ip2 by {
                        let j = choose|j: int| 0 <= j < before.len() && #[trigger] before[j].host@ == host@ && before[j].ip == ip2;
                        if j != i {
                            assert(before[j].host@ != before[i as int].host@ || j == i);
                        }
                    }
                    assert forall|h2: Seq<u8>, ip2: u32| #![auto] self.mapped(h2, ip2) && h2 != host@ implies old(self).mapped(h2, ip2) by {
                        let j = choose|j: int| 0 <= j < self.records@.len() && #[trigger] self.records@[j].host@ == h2 && self.records@[j].ip == ip2;
                        assert(before[j].host@ == h2);
                    }
                    assert forall|h2: Seq<u8>, ip2: u32| old(self).mapped(h2, ip2) implies self.mapped(h2, ip2) by {
                        let j = choose|j: int| 0 <= j < before.len() && #[trigger] before[j].host@ == h2 && before[j].ip == ip2;
                        assert(self.records@[j].host@ == h2);
                    }
                    assert(before[i as int].host@ == host@);
                    assert(old(self).mapped(host@, ip));
                }
                return ip;
            },
            None => {},
        }
        let t = self.tick();
        let h = slice_to_vec(host);
        let mut cand = self.cursor;
        let mut steps: u64 = 0;
        let pool = self.size - 3;
        while steps < pool
            invariant
                self.wf(),
                self.network == old(self).network,
                self.size == old(self).size,
                self.skipped == old(self).skipped,
                self.records == old(self).records,
                self.clock >= old(self).clock,
                t == old(self).clock,
                t <= self.clock,
                pool == self.size - 3,
                self.first_spec() <= cand <= self.last_spec(),
                self.cursor == old(self).cursor,
                steps <= pool,
                steps < pool ==> self.scan_offset(self.cursor as int, cand as int) == steps,
                forall|a: int| self.first_spec() <= a <= self.last_spec() && self.scan_offset(self.cursor as int, a) < steps
                    ==> exists|j: int| 0 <= j < self.records@.len() && #[trigger] self.records@[j].ip == a,
                h@ == host@,
                forall|j: int| #![auto] 0 <= j < self.records@.len() ==> self.records@[j].host@ != host@,
            decreases pool - steps,
        {
            match self.find_ip(cand) {
                None => {
                    proof {
                        assert forall|a: u32| old(self).first_spec() <= a <= old(self).last_spec()
                            && old(self).scan_offset(old(self).cursor_spec(), a as int) < old(self).scan_offset(old(self).cursor_spec(), cand as int)
                            implies !(#[trigger] old(self).is_free(a)) by {
                            assert(self.scan_offset(self.cursor as int, a as int) < steps);
                            let j = choose|j: int| 0 <= j < self.records@.len() && #[trigger] self.records@[j].ip == a;
                            assert(old(self).records@[j].ip == a);
                            assert(old(self).mapped(old(self).records@[j].host@, a));
                        }
                    }
                    let next = self.next_in_pool(cand);
                    self.cursor = next;
                    let ghost before = self.records@;
                    self.records.push(FakeRecord { host: h, ip: cand, last_access: t });
                    proof {
                        let n = before.len() as int;
                        assert(self.records@[n].host@ == host@);
                        assert(self.mapped(host@, cand));
                        assert forall|h2: Seq<u8>, ip2: u32| #![auto] self.mapped(h2, ip2) && h2 != host@ implies old(self).mapped(h2, ip2) by {
                            let j = choose|j: int| 0 <= j < self.records@.len() && #[trigger] self.records@[j].host@ == h2 && self.records@[j].ip == ip2;
                            assert(j != n);
                            assert(before[j].host@ == h2);
                        }
                        assert forall|ip2: u32| !old(self).mapped(host@, ip2) by {
                            if old(self).mapped(host@, ip2) {
                                let j = choose|j: int| 0 <= j < before.len() && #[trigger] before[j].host@ == host@ && before[j].ip == ip2;
                            }
                        }
                        assert forall|h2: Seq<u8>, ip2: u32| old(self).mapped(h2, ip2) implies self.mapped(h2, ip2) by {
                            let j = choose|j: int| 0 <= j < before.len() && #[trigger] before[j].host@ == h2 && before[j].ip == ip2;
                            assert(self.records@[j].host@ == h2);
                        }
                        assert forall|h2: Seq<u8>| !old(self).mapped(h2, cand) by {
                            if old(self).mapped(h2, cand) {
                                let j = choose|j: int| 0 <= j < before.len() && #[trigger] before[j].host@ == h2 && before[j].ip == cand;
                            }
                        }
                        assert(old(self).is_free(cand));
                    }
                    return cand;
                },
                Some(k) => {
                    let ghost c0 = cand;
                    cand = self.next_in_pool(cand);
                    proof {
                        assert(self.records@[k as int].ip == c0);
                        assert forall|a: int| self.first_spec() <= a <= self.last_spec() && self.scan_offset(self.cursor as int, a) < steps + 1
                            implies exists|j: int| 0 <= j < self.records@.len() && #[trigger] self.records@[j].ip == a by {
                            if self.scan_offset(self.cursor as int, a) == steps {
                                assert(a == c0);
                                assert(self.records@[k as int].ip == a);
                            }
                        }
                    }
                },
            }
            steps = steps + 1;
        }
        // every address of the pool is taken: reuse the oldest one
        proof {
            assert forall|a: u32| self.first_spec() <= a <= self.last_spec() implies !(#[trigger] old(self).is_free(a)) by {
                assert(self.scan_offset(self.cursor as int, a as int) < steps);
                let j = choose|j: int| 0 <= j < self.records@.len() && #[trigger] self.records@[j].ip == a;
                assert(old(self).mapped(self.records@[j].host@, a));
            }
        }
        if self.records.len() == 0 {
            let ip = self.cursor;
            self.cursor = self.next_in_pool(ip);
            self.records.push(FakeRecord { host: h, ip, last_access: t });
            proof {
                assert(self.records@[0].host@ == host@);
                assert(self.mapped(host@, ip));
                assert forall|h2: Seq<u8>, ip2: u32| #![auto] self.mapped(h2, ip2) && h2 != host@ implies old(self).mapped(h2, ip2) by {
                    let j = choose|j: int| 0 <= j < self.records@.len() && #[trigger] self.records@[j].host@ == h2 && self.records@[j].ip == ip2;
                }
                assert forall|ip2: u32| !old(self).mapped(host@, ip2) by {
                    if old(self).mapped(host@, ip2) {
                        let j = choose|j: int| 0 <= j < old(self).records@.len() && #[trigger] old(self).records@[j].host@ == host@ && old(self).records@[j].ip == ip2;
                    }
                }
            }
            return ip;
        }
        let k = self.oldest();
        let ip = self.records[k].ip;
        let ghost before = self.records@;
        self.records.set(k, FakeRecord { host: h, ip, last_access: t });
        self.cursor = self.next_in_pool(ip);
        proof {
            assert(self.records@[k as int].host@ == host@);
            assert(self.mapped(host@, ip));
            assert forall|h2: Seq<u8>, ip2: u32| #![auto] self.mapped(h2, ip2) && h2 != host@ implies old(self).mapped(h2, ip2) by {
                let j = choose|j: int| 0 <= j < self.records@.len() && #[trigger] self.records@[j].host@ == h2 && self.records@[j].ip == ip2;
                assert(j != k);
                assert(before[j].host@ == h2);
            }
            assert forall|ip2: u32| !old(self).mapped(host@, ip2) by {
                if old(self).mapped(host@, ip2) {
                    let j = choose|j: int| 0 <= j < before.len() && #[trigger] before[j].host@ == host@ && before[j].ip == ip2;
                }
            }
            assert forall|h2: Seq<u8>, ip2: u32| old(self).mapped(h2, ip2) && !self.mapped(h2, ip2) implies old(self).least_recent(h2) by {
                let j = choose|j: int| 0 <= j < before.len() && #[trigger] before[j].host@ == h2 && before[j].ip == ip2;
                if j != k {
                    assert(self.records@[j].host@ == h2);
                }
                assert(before[k as int].host@ == h2);
            }
        }
        ip
    }
}

/// The fake-IP mapping is one to one: two mappings share a host exactly when
/// they share an address.
pub proof fn lemma_fake_ip_bijection(e: &FakeDns, h1: Seq<u8>, ip1: u32, h2: Seq<u8>, ip2: u32)
    requires
        e.wf(),
        e.mapped(h1, ip1),
        e.mapped(h2, ip2),
    ensures
        (h1 == h2) <==> (ip1 == ip2),
{
    let i = choose|i: int| 0 <= i < e.records@.len() && #[trigger] e.records@[i].host@ == h1 && e.records@[i].ip == ip1;
    let j = choose|j: int| 0 <= j < e.records@.len() && #[trigger] e.records@[j].host@ == h2 && e.records@[j].ip == ip2;
    if i < j {
        assert(e.records@[i].ip != e.records@[j].ip && e.records@[i].host@ != e.records@[j].host@);
    } else if j < i {
        assert(e.records@[j].ip != e.records@[i].ip && e.records@[j].host@ != e.records@[i].host@);
    }
}

/// Looking up a host and then its address goes round: the address maps back
/// to that host alone, and the host to that address alone. So after `lookup(h)`
/// returns `ip`, `reverse_lookup(ip)` returns `h`, and `lookup(h)` returns `ip`
/// again.
pub proof fn lemma_fake_ip_round_trip(e: &FakeDns, h: Seq<u8>, ip: u32)
    requires
        e.wf(),
        e.mapped(h, ip),
    ensures
        forall|h2: Seq<u8>| e.mapped(h2, ip) ==> h2 == h,
        forall|ip2: u32| e.mapped(h, ip2) ==> ip2 == ip,
        !(forall|h2: Seq<u8>| !e.mapped(h2, ip)),
{
    assert forall|h2: Seq<u8>| e.mapped(h2, ip) implies h2 == h by {
        lemma_fake_ip_bijection(e, h, ip, h2, ip);
    }
    assert forall|ip2: u32| e.mapped(h, ip2) implies ip2 == ip by {
        lemma_fake_ip_bijection(e, h, ip, h, ip2);
    }
}

/// No mapped address is the network address of the block, the address after
/// it, or the broadcast address; every mapped address lies in the block.
pub proof fn lemma_fake_ip_pool_bounds(e: &FakeDns, h: Seq<u8>, ip: u32)
    requires
        e.wf(),
        e.mapped(h, ip),
    ensures
        ip != e.network_spec(),
        ip != e.network_spec() + 1,
        ip != e.broadcast_spec(),
        e.in_block(ip),
{
    let i = choose|i: int| 0 <= i < e.records@.len() && #[trigger] e.records@[i].host@ == h && e.records@[i].ip == ip;
    assert(e.first_spec() <= e.records@[i].ip <= e.last_spec());
}

/// The pool of a well-formed engine is not empty, and lies in the range of `u32`.
pub proof fn lemma_fake_ip_pool_nonempty(e: &FakeDns)
    requires
        e.wf(),
    ensures
        0 <= e.network_spec(),
        e.first_spec() <= e.last_spec() < 0x1_0000_0000,
{
}

/// Whether two byte strings are equal.
pub fn bytes_equal(a: &[u8], b: &[u8]) -> (r: bool)
    ensures
        r == (a@ == b@),
{
    if a.len() != b.len() {
        return false;
    }
    let mut i: usize = 0;
    while i < a.len()
        invariant
            a@.len() == b@.len(),
            i <= a@.len(),
            forall|j: int| 0 <= j < i ==> a@[j] == b@[j],
        decreases a@.len() - i,
    {
        if a[i] != b[i] {
            return false;
        }
        i = i + 1;
    }
    proof {
        assert(a@ =~= b@);
    }
    true
}

} // verus!
