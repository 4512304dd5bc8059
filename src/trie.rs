use vstd::prelude::*;
use vstd::string::StringSliceAdditionalSpecFns;

verus! {

/// ASCII lower-casing of one byte; other bytes are kept.
pub open spec fn lower_byte(b: u8) -> u8 {
    if 65 <= b && b <= 90 {
        (b + 32) as u8
    } else {
        b
    }
}

/// ASCII lower-casing of a byte string.
pub open spec fn lower(s: Seq<u8>) -> Seq<u8> {
    s.map_values(|b: u8| lower_byte(b))
}

pub open spec fn dot() -> u8 {
    46u8
}

/// Number of dots in `s`.
pub open spec fn count_dots(s: Seq<u8>) -> nat
    decreases s.len(),
{
    if s.len() == 0 {
        0
    } else {
        count_dots(s.drop_last()) + if s.last() == dot() {
            1nat
        } else {
            0nat
        }
    }
}

/// Number of labels of a dotted name.
pub open spec fn label_count(s: Seq<u8>) -> nat {
    count_dots(s) + 1
}

/// `n` is a strict subdomain of `d`: it ends with `.` followed by `d`.
pub open spec fn is_subdomain(n: Seq<u8>, d: Seq<u8>) -> bool {
    n.len() > d.len() && n[n.len() - d.len() - 1] == dot() && n.subrange(
        n.len() - d.len(),
        n.len() as int,
    ) == d
}

/// The kind of a pattern, read from its first two bytes.
pub open spec fn is_plus(p: Seq<u8>) -> bool {
    p.len() >= 2 && p[0] == 43u8 && p[1] == dot()
}

pub open spec fn is_star(p: Seq<u8>) -> bool {
    p.len() >= 2 && p[0] == 42u8 && p[1] == dot()
}

/// The domain part of a `+.` or `*.` pattern.
pub open spec fn base(p: Seq<u8>) -> Seq<u8> {
    p.subrange(2, p.len() as int)
}

/// `p` ends with a label that is just `*`.
pub open spec fn star_at_end(p: Seq<u8>) -> bool {
    p.len() >= 1 && p.last() == 42u8 && (p.len() == 1 || p[p.len() - 2] == dot())
}

/// The length of the last label of `n`: the bytes after its last dot.
pub open spec fn last_label_len(n: Seq<u8>) -> nat
    decreases n.len(),
{
    if n.len() == 0 || n.last() == dot() {
        0
    } else {
        last_label_len(n.drop_last()) + 1
    }
}

/// Name `n` matches pattern `p` label by label, where a label `*` of the
/// pattern matches any one non-empty label and every other byte matches
/// itself.
pub open spec fn labels_match(p: Seq<u8>, n: Seq<u8>) -> bool
    decreases p.len(),
{
    if p.len() == 0 {
        n.len() == 0
    } else if star_at_end(p) {
        last_label_len(n) > 0 && labels_match(p.drop_last(), n.subrange(0, n.len() - last_label_len(n)))
    } else {
        n.len() > 0 && p.last() == n.last() && labels_match(p.drop_last(), n.drop_last())
    }
}

/// `p` holds a `*`.
pub open spec fn has_star(p: Seq<u8>) -> bool {
    exists|i: int| 0 <= i < p.len() && p[i] == 42u8
}

/// Whether pattern `p` (lower case) matches name `n` (lower case).
/// `+.d` matches `d` and every subdomain of it; any other pattern matches
/// label by label, a `*` label standing for any one label.
pub open spec fn pattern_matches(p: Seq<u8>, n: Seq<u8>) -> bool {
    if is_plus(p) {
        n == base(p) || is_subdomain(n, base(p))
    } else {
        labels_match(p, n)
    }
}

/// The precedence of a pattern: a deeper pattern wins, and at equal depth an
/// exact pattern wins over one with `*`, which wins over `+`.
pub open spec fn rank(p: Seq<u8>) -> int {
    if is_plus(p) {
        (3 * label_count(base(p))) as int
    } else if has_star(p) {
        (3 * label_count(p) + 1) as int
    } else {
        (3 * label_count(p) + 2) as int
    }
}

/// `t1` is `t0` after inserting the lower-cased pattern `p` with value `v`:
/// earlier entries keep their patterns, and their values unless their pattern
/// is `p`; an entry for `p` holds `v`; at most one entry, for `p`, is added.
pub open spec fn inserted<T>(t0: StringTrie<T>, t1: StringTrie<T>, p: Seq<u8>, v: T) -> bool {
    &&& t1.entries@.len() == t0.entries@.len() || t1.entries@.len() == t0.entries@.len() + 1
    &&& forall|i: int| #![trigger t1.entries@[i]] 0 <= i < t0.entries@.len() ==> t1.entries@[i].pattern@ == t0.entries@[i].pattern@
    &&& forall|i: int| #![trigger t1.entries@[i]] 0 <= i < t0.entries@.len() && t0.entries@[i].pattern@ != p ==> t1.entries@[i].value == t0.entries@[i].value
    &&& forall|i: int| #![trigger t1.entries@[i]] t0.entries@.len() <= i < t1.entries@.len() ==> t1.entries@[i].pattern@ == p
    &&& exists|i: int| 0 <= i < t1.entries@.len() && #[trigger] t1.entries@[i].pattern@ == p && t1.entries@[i].value == v
}

/// `t` holds the lower-cased patterns `ps` and no other, each with the value
/// given with its last occurrence in `ps`.
pub open spec fn built_from<T>(t: StringTrie<T>, ps: Seq<Seq<u8>>, vs: Seq<T>) -> bool {
    &&& forall|j: int| 0 <= j < t.entries@.len() ==> exists|k: int| 0 <= k < ps.len() && #[trigger] t.entries@[j].pattern@ == lower(ps[k])
    &&& forall|k: int| #![trigger ps[k]] 0 <= k < ps.len() && (forall|k2: int| k < k2 < ps.len() ==> lower(#[trigger] ps[k2]) != lower(ps[k]))
        ==> exists|j: int| 0 <= j < t.entries@.len() && #[trigger] t.entries@[j].pattern@ == lower(ps[k]) && t.entries@[j].value == vs[k]
}

/// An empty trie is built from no patterns.
pub proof fn lemma_built_empty<T>(t: StringTrie<T>)
    requires
        t.entries@.len() == 0,
    ensures
        built_from(t, Seq::empty(), Seq::empty()),
{
}

/// Inserting a pattern extends what a trie is built from.
pub proof fn lemma_built_step<T>(t0: StringTrie<T>, t1: StringTrie<T>, ps: Seq<Seq<u8>>, vs: Seq<T>, p: Seq<u8>, v: T)
    requires
        ps.len() == vs.len(),
        built_from(t0, ps, vs),
        inserted(t0, t1, lower(p), v),
    ensures
        built_from(t1, ps.push(p), vs.push(v)),
{
    let ps1 = ps.push(p);
    let vs1 = vs.push(v);
    assert forall|j: int| 0 <= j < t1.entries@.len() implies exists|k: int| 0 <= k < ps1.len() && #[trigger] t1.entries@[j].pattern@ == lower(ps1[k]) by {
        if j < t0.entries@.len() {
            assert(t1.entries@[j].pattern@ == t0.entries@[j].pattern@);
            let k = choose|k: int| 0 <= k < ps.len() && #[trigger] t0.entries@[j].pattern@ == lower(ps[k]);
            assert(ps1[k] == ps[k]);
        } else {
            assert(t1.entries@[j].pattern@ == lower(p));
            assert(ps1[ps.len() as int] == p);
        }
    }
    assert forall|k: int| #![trigger ps1[k]] 0 <= k < ps1.len() && (forall|k2: int| k < k2 < ps1.len() ==> lower(#[trigger] ps1[k2]) != lower(ps1[k]))
        implies exists|j: int| 0 <= j < t1.entries@.len() && #[trigger] t1.entries@[j].pattern@ == lower(ps1[k]) && t1.entries@[j].value == vs1[k] by {
        if k == ps.len() {
            assert(ps1[k] == p && vs1[k] == v);
        } else {
            assert(ps1[k] == ps[k] && vs1[k] == vs[k]);
            assert(ps1[ps.len() as int] == p);
            assert(lower(p) != lower(ps[k]));
            assert forall|k2: int| k < k2 < ps.len() implies lower(#[trigger] ps[k2]) != lower(ps[k]) by {
                assert(ps1[k2] == ps[k2]);
            }
            let j = choose|j: int| 0 <= j < t0.entries@.len() && #[trigger] t0.entries@[j].pattern@ == lower(ps[k]) && t0.entries@[j].value == vs[k];
            assert(t1.entries@[j].pattern@ == t0.entries@[j].pattern@);
        }
    }
}

pub struct TrieEntry<T> {
    pub pattern: Vec<u8>,
    pub rank: u128,
    pub value: T,
}

/// A set of domain patterns, each with a value, searched by best match.
pub struct StringTrie<T> {
    pub entries: Vec<TrieEntry<T>>,
}

/// Lower-cases an ASCII byte string.
pub fn to_lower(s: &[u8]) -> (r: Vec<u8>)
    ensures
        r@ == lower(s@),
{
    let mut r: Vec<u8> = Vec::new();
    let mut i: usize = 0;
    while i < s.len()
        invariant
            i <= s@.len(),
            r@ == lower(s@.subrange(0, i as int)),
        decreases s@.len() - i,
    {
        let b = s[i];
        let l: u8 = if 65 <= b && b <= 90 {
            b + 32
        } else {
            b
        };
        r.push(l);
        proof {
            assert(s@.subrange(0, i + 1) =~= s@.subrange(0, i as int).push(b));
        }
        i = i + 1;
    }
    proof {
        assert(s@.subrange(0, s@.len() as int) =~= s@);
    }
    r
}

fn dots_in(s: &[u8], lo: usize, hi: usize) -> (r: u64)
    requires
        lo <= hi <= s@.len(),
    ensures
        r == count_dots(s@.subrange(lo as int, hi as int)),
        r <= hi - lo,
{
    let mut c: u64 = 0;
    let mut i: usize = lo;
    while i < hi
        invariant
            lo <= i <= hi <= s@.len(),
            c == count_dots(s@.subrange(lo as int, i as int)),
            c <= i - lo,
        decreases hi - i,
    {
        proof {
            let t = s@.subrange(lo as int, i + 1);
            assert(t.drop_last() =~= s@.subrange(lo as int, i as int));
        }
        if s[i] == 46 {
            c = c + 1;
        }
        i = i + 1;
    }
    c
}

/// Whether `n[off..]` equals `d[from..]`.
fn tail_equals(n: &[u8], off: usize, d: &[u8], from: usize) -> (r: bool)
    requires
        from <= d@.len(),
        off <= n@.len(),
    ensures
        r == (n@.subrange(off as int, n@.len() as int) == d@.subrange(from as int, d@.len() as int)),
{
    if n.len() - off != d.len() - from {
        proof {
            assert(n@.subrange(off as int, n@.len() as int).len() != d@.subrange(from as int, d@.len() as int).len());
        }
        return false;
    }
    let dl = d.len();
    let mut i: usize = 0;
    while i < n.len() - off
        invariant
            dl == d@.len(),
            off <= n@.len(),
            from <= d@.len(),
            n@.len() - off == d@.len() - from,
            i <= n@.len() - off,
            forall|j: int| 0 <= j < i ==> #[trigger] n@[off + j] == d@[from + j],
        decreases n@.len() - off - i,
    {
        assert(from + i < d@.len());
        if n[off + i] != d[from + i] {
            proof {
                let a = n@.subrange(off as int, n@.len() as int);
                let b = d@.subrange(from as int, d@.len() as int);
                assert(a[i as int] != b[i as int]);
            }
            return false;
        }
        i = i + 1;
    }
    proof {
        let a = n@.subrange(off as int, n@.len() as int);
        let b = d@.subrange(from as int, d@.len() as int);
        assert forall|k: int| 0 <= k < a.len() implies a[k] == b[k] by {
            assert(n@[off + k] == d@[from + k]);
        }
        assert(a =~= b);
    }
    true
}

/// Whether `n` is a strict subdomain of `p[2..]`.
fn subdomain_of_base(n: &[u8], p: &[u8]) -> (r: bool)
    requires
        p@.len() >= 2,
    ensures
        r == is_subdomain(n@, base(p@)),
{
    let dl = p.len() - 2;
    if n.len() <= dl {
        return false;
    }
    let k = n.len() - dl - 1;
    if n[k] != 46 {
        return false;
    }
    tail_equals(n, n.len() - dl, p, 2)
}

/// The length of the last label of `n[..j]`.
fn last_label(n: &[u8], j: usize) -> (k: usize)
    requires
        j <= n@.len(),
    ensures
        k <= j,
        k == last_label_len(n@.subrange(0, j as int)),
{
    let mut k: usize = 0;
    while k < j && n[j - 1 - k] != 46
        invariant
            k <= j <= n@.len(),
            last_label_len(n@.subrange(0, j as int)) == k + last_label_len(n@.subrange(0, j - k)),
        decreases j - k,
    {
        proof {
            let s = n@.subrange(0, j - k);
            assert(s.drop_last() =~= n@.subrange(0, j - k - 1));
        }
        k = k + 1;
    }
    k
}

/// Whether name `n` matches pattern `p` label by label.
fn match_labels(p: &[u8], n: &[u8]) -> (r: bool)
    ensures
        r == labels_match(p@, n@),
{
    let mut i: usize = p.len();
    let mut j: usize = n.len();
    proof {
        assert(p@.subrange(0, p@.len() as int) =~= p@);
        assert(n@.subrange(0, n@.len() as int) =~= n@);
    }
    while i > 0
        invariant
            i <= p@.len(),
            j <= n@.len(),
            labels_match(p@, n@) == labels_match(p@.subrange(0, i as int), n@.subrange(0, j as int)),
        decreases i,
    {
        let ghost ps = p@.subrange(0, i as int);
        let ghost ns = n@.subrange(0, j as int);
        proof {
            assert(ps.drop_last() =~= p@.subrange(0, i - 1));
        }
        if p[i - 1] == 42 && (i == 1 || p[i - 2] == 46) {
            assert(star_at_end(ps));
            let k = last_label(n, j);
            if k == 0 {
                return false;
            }
            proof {
                assert(ns.subrange(0, ns.len() - k) =~= n@.subrange(0, j - k));
            }
            j = j - k;
            i = i - 1;
        } else {
            assert(!star_at_end(ps));
            if j == 0 || p[i - 1] != n[j - 1] {
                return false;
            }
            proof {
                assert(ns.drop_last() =~= n@.subrange(0, j - 1));
            }
            i = i - 1;
            j = j - 1;
        }
    }
    j == 0
}

/// Whether `p` holds a `*`.
fn holds_star(p: &[u8]) -> (r: bool)
    ensures
        r == has_star(p@),
{
    let mut i: usize = 0;
    while i < p.len()
        invariant
            i <= p@.len(),
            forall|k: int| 0 <= k < i ==> p@[k] != 42u8,
        decreases p@.len() - i,
    {
        if p[i] == 42 {
            return true;
        }
        i = i + 1;
    }
    false
}

/// Whether pattern `p` matches name `n`; both are taken in lower case.
pub fn matches_pattern(p: &[u8], n: &[u8]) -> (r: bool)
    ensures
        r == pattern_matches(p@, n@),
{
    proof {
        assert(p@.subrange(0, p@.len() as int) =~= p@);
        assert(n@.subrange(0, n@.len() as int) =~= n@);
    }
    if p.len() >= 2 && p[0] == 43 && p[1] == 46 {
        tail_equals(n, 0, p, 2) || subdomain_of_base(n, p)
    } else {
        match_labels(p, n)
    }
}

/// The precedence of pattern `p`.
pub fn pattern_rank(p: &[u8]) -> (r: u128)
    ensures
        r == rank(p@),
{
    proof {
        assert(p@.subrange(0, p@.len() as int) =~= p@);
    }
    if p.len() >= 2 && p[0] == 43 && p[1] == 46 {
        let c = dots_in(p, 2, p.len()) as u128;
        3 * (c + 1)
    } else if holds_star(p) {
        let c = dots_in(p, 0, p.len()) as u128;
        3 * (c + 1) + 1
    } else {
        let c = dots_in(p, 0, p.len()) as u128;
        3 * (c + 1) + 2
    }
}

impl<T> StringTrie<T> {
    /// The lower-cased patterns, in order of insertion.
    pub open spec fn patterns(&self) -> Seq<Seq<u8>> {
        self.entries@.map_values(|e: TrieEntry<T>| e.pattern@)
    }

    pub open spec fn wf(&self) -> bool {
        &&& forall|i: int| #![auto] 0 <= i < self.entries@.len()
            ==> self.entries@[i].pattern@ == lower(self.entries@[i].pattern@)
                && self.entries@[i].rank == rank(self.entries@[i].pattern@)
        &&& forall|i: int, j: int| #![auto] 0 <= i < j < self.entries@.len()
            ==> self.entries@[i].pattern@ != self.entries@[j].pattern@
    }

    /// Index of the entry that a search for the lower-cased name `n` selects:
    /// a matching entry of highest rank, the earliest among equals.
    pub open spec fn is_best(&self, i: int, n: Seq<u8>) -> bool {
        &&& 0 <= i < self.entries@.len()
        &&& pattern_matches(self.entries@[i].pattern@, n)
        &&& forall|j: int| #![auto] 0 <= j < self.entries@.len() && pattern_matches(self.entries@[j].pattern@, n)
            ==> rank(self.entries@[j].pattern@) <= rank(self.entries@[i].pattern@)
        &&& forall|j: int| #![auto] 0 <= j < i && pattern_matches(self.entries@[j].pattern@, n)
            ==> rank(self.entries@[j].pattern@) < rank(self.entries@[i].pattern@)
    }

    /// Some pattern matches the lower-cased name `n`.
    pub open spec fn any_match(&self, n: Seq<u8>) -> bool {
        exists|j: int| 0 <= j < self.entries@.len() && pattern_matches(#[trigger] self.entries@[j].pattern@, n)
    }

    pub fn new() -> (r: Self)
        ensures
            r.wf(),
            r.entries@.len() == 0,
    {
        StringTrie { entries: Vec::new() }
    }

    /// Adds `pattern` with `value`, replacing the value of an equal pattern
    /// (patterns compare without regard to ASCII case).
    pub fn insert(&mut self, pattern: &str, value: T)
        requires
            old(self).wf(),
        ensures
            final(self).wf(),
            exists|i: int| #![auto] 0 <= i < final(self).entries@.len()
                && final(self).entries@[i].pattern@ == lower(pattern.spec_bytes())
                && final(self).entries@[i].value == value,
            final(self).patterns().to_set() == old(self).patterns().to_set().insert(lower(pattern.spec_bytes())),
            inserted(*old(self), *final(self), lower(pattern.spec_bytes()), value),
    {
        let p = to_lower(pattern.as_bytes());
        let rk = pattern_rank(p.as_slice());
        proof {
            assert forall|k: int| 0 <= k < p@.len() implies lower_byte(#[trigger] p@[k]) == p@[k] by {}
            assert(lower(p@) =~= p@);
        }
        let mut i: usize = 0;
        while i < self.entries.len()
            invariant
                i <= self.entries@.len(),
                self.wf(),
                *self == *old(self),
                p@ == lower(pattern.spec_bytes()),
                rk == rank(p@),
                forall|j: int| #![auto] 0 <= j < i ==> self.entries@[j].pattern@ != p@,
            decreases self.entries@.len() - i,
        {
            if tail_equals(self.entries[i].pattern.as_slice(), 0, p.as_slice(), 0) {
                proof {
                    let e = self.entries@[i as int].pattern@;
                    assert(e.subrange(0, e.len() as int) =~= e);
                    assert(p@.subrange(0, p@.len() as int) =~= p@);
                }
                let old_pattern = self.entries[i].pattern.clone();
                let ghost before = self.entries@;
                self.entries.set(i, TrieEntry { pattern: old_pattern, rank: rk, value });
                proof {
                    assert(self.entries@[i as int].pattern@ == lower(pattern.spec_bytes()));
                    assert(self.patterns() =~= old(self).patterns());
                    assert(old(self).patterns()[i as int] == p@);
                    assert(self.patterns().to_set() =~= old(self).patterns().to_set().insert(p@));
                }
                return;
            }
            i = i + 1;
        }
        self.entries.push(TrieEntry { pattern: p, rank: rk, value });
        proof {
            assert(self.entries@[self.entries@.len() - 1].pattern@ == lower(pattern.spec_bytes()));
            assert(self.patterns() =~= old(self).patterns().push(p@));
            assert(self.patterns().to_set() =~= old(self).patterns().to_set().insert(p@)) by {
                assert forall|x| #![auto] self.patterns().to_set().contains(x) <==> old(self).patterns().to_set().insert(p@).contains(x) by {
                    if x == p@ {
                        assert(self.patterns()[old(self).patterns().len() as int] == x);
                    }
                    if old(self).patterns().to_set().contains(x) {
                        let k = choose|k: int| 0 <= k < old(self).patterns().len() && old(self).patterns()[k] == x;
                        assert(self.patterns()[k] == x);
                    }
                }
            }
        }
    }

    /// The value of the best pattern for `name`, compared without regard to
    /// ASCII case: the deepest matching pattern, exact before `*` before `+`.
    pub fn search(&self, name: &[u8]) -> (r: Option<&T>)
        requires
            self.wf(),
        ensures
            r is None <==> !self.any_match(lower(name@)),
            r matches Some(v) ==> exists|i: int| self.is_best(i, lower(name@)) && *v == self.entries@[i].value,
    {
        let n = to_lower(name);
        let mut best: Option<usize> = None;
        let mut i: usize = 0;
        while i < self.entries.len()
            invariant
                i <= self.entries@.len(),
                self.wf(),
                n@ == lower(name@),
                best is None ==> forall|j: int| #![auto] 0 <= j < i ==> !pattern_matches(self.entries@[j].pattern@, n@),
                best matches Some(b) ==> b < i && {
                    &&& pattern_matches(self.entries@[b as int].pattern@, n@)
                    &&& forall|j: int| #![auto] 0 <= j < i && pattern_matches(self.entries@[j].pattern@, n@)
                        ==> rank(self.entries@[j].pattern@) <= rank(self.entries@[b as int].pattern@)
                    &&& forall|j: int| #![auto] 0 <= j < b && pattern_matches(self.entries@[j].pattern@, n@)
                        ==> rank(self.entries@[j].pattern@) < rank(self.entries@[b as int].pattern@)
                },
            decreases self.entries@.len() - i,
        {
            if matches_pattern(self.entries[i].pattern.as_slice(), n.as_slice()) {
                match best {
                    None => {
                        best = Some(i);
                    },
                    Some(b) => {
                        if self.entries[i].rank > self.entries[b].rank {
                            best = Some(i);
                        }
                    },
                }
            }
            i = i + 1;
        }
        match best {
            None => {
                proof {
                    assert(!self.any_match(lower(name@)));
                }
                None
            },
            Some(b) => {
                proof {
                    assert(self.is_best(b as int, lower(name@)));
                    assert(self.any_match(lower(name@)));
                }
                Some(&self.entries[b].value)
            },
        }
    }
}

} // verus!
