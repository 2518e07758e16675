use vstd::prelude::*;

use crate::dns_packet::{records_view, DnsRecord, RecordView};

verus! {

/// The data column of a stored record: raw bytes, a host name, or nothing.
pub enum BodyView {
    Bytes(Seq<u8>),
    Text(Seq<char>),
    Nothing,
}

pub open spec fn body_of(r: RecordView) -> BodyView {
    match r {
        RecordView::Unknown(_, body) => BodyView::Bytes(body),
        RecordView::A(_, ip) => BodyView::Bytes(ip),
        RecordView::NS(_, host) => BodyView::Text(host),
        RecordView::CNAME(_, host) => BodyView::Text(host),
        RecordView::MX(_, _, host) => BodyView::Text(host),
        RecordView::AAAA(_, ip) => BodyView::Bytes(ip),
        RecordView::DROP(_) => BodyView::Nothing,
    }
}

/// The preference of an MX record; 0 for every other record.
pub open spec fn priority_of(r: RecordView) -> u16 {
    match r {
        RecordView::MX(_, priority, _) => priority,
        _ => 0,
    }
}

/// Two records that the store holds at most one of: same domain, type, data
/// and priority.
pub open spec fn same_key(a: RecordView, b: RecordView) -> bool {
    &&& a.preamble().domain == b.preamble().domain
    &&& a.preamble().query_type == b.preamble().query_type
    &&& body_of(a) == body_of(b)
    &&& priority_of(a) == priority_of(b)
}

/// No two entries of `s` share a key.
pub open spec fn keys_unique(s: Seq<RecordView>) -> bool {
    forall|i: int, j: int|
        0 <= i < s.len() && 0 <= j < s.len() && i != j ==> !same_key(#[trigger] s[i], #[trigger] s[j])
}

/// Whether a cached record inserted at `inserted` has expired at `now`: more
/// than its time to live has passed.
pub open spec fn expired(r: RecordView, inserted: int, now: int) -> bool {
    r.preamble().ttl < now - inserted
}

/// A record of the cache and the second it was inserted at.
#[derive(Debug)]
pub struct CachedDnsRecord {
    pub cached_time: i64,
    pub record: DnsRecord,
}

impl View for CachedDnsRecord {
    type V = (RecordView, i64);

    open spec fn view(&self) -> (RecordView, i64) {
        (self.record@, self.cached_time)
    }
}

impl Clone for CachedDnsRecord {
    fn clone(&self) -> (r: Self)
        ensures
            r@ == self@,
    {
        CachedDnsRecord { cached_time: self.cached_time, record: self.record.clone() }
    }
}

impl CachedDnsRecord {
    pub fn new(record: DnsRecord, cached_time: i64) -> (r: Self)
        ensures
            r@ == (record@, cached_time),
    {
        CachedDnsRecord { cached_time, record }
    }
}

pub open spec fn cached_view(s: Seq<CachedDnsRecord>) -> Seq<(RecordView, i64)> {
    s.map_values(|c: CachedDnsRecord| c@)
}

pub open spec fn cached_records(s: Seq<(RecordView, i64)>) -> Seq<RecordView> {
    s.map_values(|c: (RecordView, i64)| c.0)
}

/// The record store's rules over in-memory tables: the authoritative
/// records, the cache of upstream answers with their insertion times, and the
/// upstream servers. A durable store loads its rows into one and answers from
/// it.
pub struct SimpleDatabase {
    records: Vec<DnsRecord>,
    cached: Vec<CachedDnsRecord>,
    upstreams: Vec<[u8; 4]>,
}

/// The resolvers that every store starts with: 8.8.8.8 and 75.75.75.75.
pub open spec fn default_upstreams() -> Seq<Seq<u8>> {
    seq![seq![8u8, 8u8, 8u8, 8u8], seq![75u8, 75u8, 75u8, 75u8]]
}

fn octets_copy(ip: &[u8; 4]) -> (r: [u8; 4])
    ensures
        r@ == ip@,
{
    let r = [ip[0], ip[1], ip[2], ip[3]];
    assert(r@ =~= ip@);
    r
}

fn bytes_equal(a: &Vec<u8>, b: &Vec<u8>) -> (r: bool)
    ensures
        r == (a@ == b@),
{
    if a.len() != b.len() {
        return false;
    }
    let mut i: usize = 0;
    while i < a.len()
        invariant
            a@.len() == b@.len(),
            i <= a@.len(),
            forall|k: int| 0 <= k < i ==> a@[k] == b@[k],
        decreases a@.len() - i,
    {
        if a[i] != b[i] {
            return false;
        }
        i = i + 1;
    }
    assert(a@ =~= b@);
    true
}

fn ip_bytes(ip: &[u8; 4]) -> (r: Vec<u8>)
    ensures
        r@ == ip@,
{
    let r = vec![ip[0], ip[1], ip[2], ip[3]];
    assert(r@ =~= ip@);
    r
}

fn body_bytes(r: &DnsRecord) -> (b: Option<Vec<u8>>)
    ensures
        match body_of(r@) {
            BodyView::Bytes(s) => b is Some && b->Some_0@ == s,
            _ => b is None,
        },
{
    match r {
        DnsRecord::Unknown(x) => Some(vstd::slice::slice_to_vec(x.body.as_slice())),
        DnsRecord::A(x) => Some(ip_bytes(&x.ip)),
        DnsRecord::AAAA(x) => Some(ip_bytes(&x.ip)),
        _ => None,
    }
}

fn body_text(r: &DnsRecord) -> (t: Option<&String>)
    ensures
        match body_of(r@) {
            BodyView::Text(s) => t is Some && t->Some_0@ == s,
            _ => t is None,
        },
{
    match r {
        DnsRecord::NS(x) => Some(&x.host),
        DnsRecord::CNAME(x) => Some(&x.host),
        DnsRecord::MX(x) => Some(&x.host),
        _ => None,
    }
}

fn priority(r: &DnsRecord) -> (p: u16)
    ensures
        p == priority_of(r@),
{
    match r {
        DnsRecord::MX(x) => x.priority,
        _ => 0,
    }
}

fn domain_of(r: &DnsRecord) -> (d: &String)
    ensures
        d@ == r@.preamble().domain,
{
    match r {
        DnsRecord::Unknown(x) => &x.preamble.domain,
        DnsRecord::A(x) => &x.preamble.domain,
        DnsRecord::NS(x) => &x.preamble.domain,
        DnsRecord::CNAME(x) => &x.preamble.domain,
        DnsRecord::MX(x) => &x.preamble.domain,
        DnsRecord::AAAA(x) => &x.preamble.domain,
        DnsRecord::DROP(x) => &x.preamble.domain,
    }
}

fn ttl(r: &DnsRecord) -> (t: u32)
    ensures
        t == r@.preamble().ttl,
{
    match r {
        DnsRecord::Unknown(x) => x.preamble.ttl,
        DnsRecord::A(x) => x.preamble.ttl,
        DnsRecord::NS(x) => x.preamble.ttl,
        DnsRecord::CNAME(x) => x.preamble.ttl,
        DnsRecord::MX(x) => x.preamble.ttl,
        DnsRecord::AAAA(x) => x.preamble.ttl,
        DnsRecord::DROP(x) => x.preamble.ttl,
    }
}

fn has_same_key(a: &DnsRecord, b: &DnsRecord) -> (r: bool)
    ensures
        r == same_key(a@, b@),
{
    if *domain_of(a) != *domain_of(b) || a.get_query_type() != b.get_query_type() || priority(a)
        != priority(b) {
        return false;
    }
    match (body_bytes(a), body_bytes(b)) {
        (Some(x), Some(y)) => bytes_equal(&x, &y),
        (None, None) => match (body_text(a), body_text(b)) {
            (Some(x), Some(y)) => *x == *y,
            (None, None) => true,
            _ => false,
        },
        _ => false,
    }
}

fn is_expired(r: &CachedDnsRecord, now: i64) -> (e: bool)
    ensures
        e == expired(r.record@, r.cached_time as int, now as int),
{
    (ttl(&r.record) as i128) < (now as i128) - (r.cached_time as i128)
}


/// `new` is `old` with `r` put in: what shared its key is gone, the rest stays.
pub open spec fn upserted(old: Seq<RecordView>, r: RecordView, new: Seq<RecordView>) -> bool {
    &&& new.contains(r)
    &&& forall|x: RecordView| #[trigger] old.contains(x) && !same_key(x, r) ==> new.contains(x)
    &&& forall|y: RecordView| #[trigger] new.contains(y) ==> y == r || (old.contains(y) && !same_key(y, r))
}

/// `new` is the cache `old` with `r` put in at `t`: what shared its key is gone.
pub open spec fn cache_upserted(
    old: Seq<(RecordView, i64)>,
    r: RecordView,
    t: i64,
    new: Seq<(RecordView, i64)>,
) -> bool {
    &&& new.contains((r, t))
    &&& forall|c: (RecordView, i64)| #[trigger] old.contains(c) && !same_key(c.0, r) ==> new.contains(c)
    &&& forall|c: (RecordView, i64)|
        #[trigger] new.contains(c) ==> c == (r, t) || (old.contains(c) && !same_key(c.0, r))
}

/// `new` holds the entries of the cache `old` that have not expired at `now`.
pub open spec fn evicted(old: Seq<(RecordView, i64)>, now: i64, new: Seq<(RecordView, i64)>) -> bool {
    forall|c: (RecordView, i64)|
        #[trigger] new.contains(c) <==> old.contains(c) && !expired(c.0, c.1 as int, now as int)
}

/// The records of `s` whose domain is `d`, in order.
pub open spec fn with_domain(s: Seq<RecordView>, d: Seq<char>) -> Seq<RecordView>
    decreases s.len(),
{
    if s.len() == 0 {
        seq![]
    } else if s.last().preamble().domain == d {
        with_domain(s.drop_last(), d).push(s.last())
    } else {
        with_domain(s.drop_last(), d)
    }
}

/// The records of the cache `s` whose domain is `d`, in order.
pub open spec fn cached_with_domain(s: Seq<(RecordView, i64)>, d: Seq<char>) -> Seq<RecordView>
    decreases s.len(),
{
    if s.len() == 0 {
        seq![]
    } else if s.last().0.preamble().domain == d {
        cached_with_domain(s.drop_last(), d).push(s.last().0)
    } else {
        cached_with_domain(s.drop_last(), d)
    }
}

/// What a lookup of `d` returns: the authoritative records of that domain,
/// then the cached ones.
pub open spec fn domain_records(records: Seq<RecordView>, cache: Seq<(RecordView, i64)>, d: Seq<char>) -> Seq<RecordView> {
    with_domain(records, d) + cached_with_domain(cache, d)
}

proof fn lemma_with_domain_contains(s: Seq<RecordView>, d: Seq<char>, x: RecordView)
    ensures
        with_domain(s, d).contains(x) <==> s.contains(x) && x.preamble().domain == d,
    decreases s.len(),
{
    if s.len() > 0 {
        let f = s.drop_last();
        lemma_with_domain_contains(f, d, x);
        if s.contains(x) {
            let k = choose|k: int| 0 <= k < s.len() && s[k] == x;
            if k < f.len() {
                assert(f[k] == x);
            }
        }
        if f.contains(x) {
            let k = choose|k: int| 0 <= k < f.len() && f[k] == x;
            assert(s[k] == x);
        }
        let w = with_domain(f, d);
        if s.last().preamble().domain == d {
            assert(w.push(s.last())[w.len() as int] == s.last());
            if w.contains(x) {
                let k = choose|k: int| 0 <= k < w.len() && w[k] == x;
                assert(w.push(s.last())[k] == x);
            }
            if w.push(s.last()).contains(x) {
                let k = choose|k: int| 0 <= k < w.len() + 1 && w.push(s.last())[k] == x;
                if k < w.len() {
                    assert(w[k] == x);
                }
            }
        }
    }
}

proof fn lemma_cached_with_domain_contains(s: Seq<(RecordView, i64)>, d: Seq<char>, x: RecordView)
    ensures
        cached_with_domain(s, d).contains(x) <==> x.preamble().domain == d && exists|t: i64| #[trigger] s.contains((x, t)),
    decreases s.len(),
{
    if s.len() > 0 {
        let f = s.drop_last();
        lemma_cached_with_domain_contains(f, d, x);
        if exists|t: i64| #[trigger] s.contains((x, t)) {
            let t = choose|t: i64| #[trigger] s.contains((x, t));
            let k = choose|k: int| 0 <= k < s.len() && s[k] == (x, t);
            if k < f.len() {
                assert(f[k] == (x, t));
                assert(f.contains((x, t)));
            } else {
                assert(s.last() == (x, t));
            }
        }
        if exists|t: i64| #[trigger] f.contains((x, t)) {
            let t = choose|t: i64| #[trigger] f.contains((x, t));
            let k = choose|k: int| 0 <= k < f.len() && f[k] == (x, t);
            assert(s[k] == (x, t));
            assert(s.contains((x, t)));
        }
        let w = cached_with_domain(f, d);
        if s.last().0.preamble().domain == d {
            assert(w.push(s.last().0)[w.len() as int] == s.last().0);
            assert(s[s.len() - 1] == s.last());
            assert(s.contains((s.last().0, s.last().1)));
            if w.contains(x) {
                let k = choose|k: int| 0 <= k < w.len() && w[k] == x;
                assert(w.push(s.last().0)[k] == x);
            }
            if w.push(s.last().0).contains(x) {
                let k = choose|k: int| 0 <= k < w.len() + 1 && w.push(s.last().0)[k] == x;
                if k < w.len() {
                    assert(w[k] == x);
                }
            }
        }
    }
}

/// A lookup holds exactly the records of that domain, authoritative or cached.
pub proof fn lemma_domain_records_lookup(records: Seq<RecordView>, cache: Seq<(RecordView, i64)>, d: Seq<char>)
    ensures
        lookup_result(records, cache, d, domain_records(records, cache, d)),
{
    let out = domain_records(records, cache, d);
    let a = with_domain(records, d);
    let b = cached_with_domain(cache, d);
    assert forall|x: RecordView| #[trigger] out.contains(x) <==> x.preamble().domain == d && (records.contains(x) || exists|t: i64| #[trigger] cache.contains((x, t))) by {
        lemma_with_domain_contains(records, d, x);
        lemma_cached_with_domain_contains(cache, d, x);
        if out.contains(x) {
            let k = choose|k: int| 0 <= k < out.len() && out[k] == x;
            if k < a.len() {
                assert(a[k] == x);
                assert(a.contains(x));
            } else {
                assert(b[k - a.len()] == x);
                assert(b.contains(x));
            }
        }
        if a.contains(x) {
            let k = choose|k: int| 0 <= k < a.len() && a[k] == x;
            assert(out[k] == x);
        }
        if b.contains(x) {
            let k = choose|k: int| 0 <= k < b.len() && b[k] == x;
            assert(out[a.len() + k] == x);
        }
    }
}

/// `out` holds the records of `records` and of `cache` whose domain is `domain`.
pub open spec fn lookup_result(
    records: Seq<RecordView>,
    cache: Seq<(RecordView, i64)>,
    domain: Seq<char>,
    out: Seq<RecordView>,
) -> bool {
    forall|x: RecordView|
        #[trigger] out.contains(x) <==> x.preamble().domain == domain && (records.contains(x) || exists|
            t: i64,
        | #[trigger] cache.contains((x, t)))
}

pub open spec fn cache_keys_unique(s: Seq<(RecordView, i64)>) -> bool {
    forall|i: int, j: int|
        0 <= i < s.len() && 0 <= j < s.len() && i != j ==> !same_key(#[trigger] s[i].0, #[trigger] s[j].0)
}

impl SimpleDatabase {
    pub closed spec fn records_model(&self) -> Seq<RecordView> {
        records_view(self.records@)
    }

    pub closed spec fn cache_model(&self) -> Seq<(RecordView, i64)> {
        cached_view(self.cached@)
    }

    pub closed spec fn upstream_model(&self) -> Seq<Seq<u8>> {
        self.upstreams@.map_values(|a: [u8; 4]| a@)
    }

    /// Keys are unique in both tables and some upstream server is known.
    pub closed spec fn wf(&self) -> bool {
        &&& keys_unique(self.records_model())
        &&& cache_keys_unique(self.cache_model())
        &&& self.upstreams@.len() > 0
    }

    /// An empty store, seeded with the default upstream servers.
    pub fn new() -> (r: Self)
        ensures
            r.wf(),
            r.records_model() == Seq::<RecordView>::empty(),
            r.cache_model() == Seq::<(RecordView, i64)>::empty(),
            r.upstream_model() == default_upstreams(),
    {
        let r = SimpleDatabase {
            records: Vec::new(),
            cached: Vec::new(),
            upstreams: vec![[8u8, 8u8, 8u8, 8u8], [75u8, 75u8, 75u8, 75u8]],
        };
        assert(r.records_model() =~= Seq::<RecordView>::empty());
        assert(r.cache_model() =~= Seq::<(RecordView, i64)>::empty());
        assert(r.upstream_model()[0] =~= seq![8u8, 8u8, 8u8, 8u8]);
        assert(r.upstream_model()[1] =~= seq![75u8, 75u8, 75u8, 75u8]);
        assert(r.upstream_model() =~= default_upstreams());
        r
    }

    /// Puts `record` among the authoritative records, in place of the one
    /// with its key if there is one.
    #[verifier::rlimit(40)]
    pub fn insert_record(&mut self, record: DnsRecord)
        requires
            old(self).wf(),
        ensures
            final(self).wf(),
            upserted(old(self).records_model(), record@, final(self).records_model()),
            final(self).cache_model() == old(self).cache_model(),
            final(self).upstream_model() == old(self).upstream_model(),
    {
        let ghost old_model = self.records_model();
        let mut i: usize = 0;
        let mut found: bool = false;
        while i < self.records.len() && !found
            invariant
                self.records_model() == old_model,
                i <= self.records@.len(),
                forall|k: int| 0 <= k < i ==> !same_key(#[trigger] old_model[k], record@),
                found ==> i < self.records@.len() && same_key(old_model[i as int], record@),
            decreases self.records@.len() - i + (if found { 0int } else { 1int }),
        {
            assert(old_model[i as int] == self.records@[i as int]@);
            if has_same_key(&self.records[i], &record) {
                found = true;
            } else {
                i = i + 1;
            }
        }
        if found {
            assert(same_key(old_model[i as int], record@));
            self.records.remove(i);
            assert(records_view(self.records@) =~= old_model.remove(i as int));
        } else {
            assert(records_view(self.records@) =~= old_model);
        }
        let ghost mid = records_view(self.records@);
        assert(forall|k: int| 0 <= k < mid.len() ==> !same_key(#[trigger] mid[k], record@)) by {
            assert forall|k: int| 0 <= k < mid.len() implies !same_key(#[trigger] mid[k], record@) by {
                if i < old_model.len() {
                    if k < i {
                        assert(mid[k] == old_model[k]);
                    } else {
                        assert(mid[k] == old_model[k + 1]);
                        assert(!same_key(old_model[k + 1], old_model[i as int]));
                    }
                } else {
                    assert(mid[k] == old_model[k]);
                }
            }
        }
        self.records.push(record);
        let ghost new_model = records_view(self.records@);
        assert(new_model =~= mid.push(record@));
        assert(new_model[mid.len() as int] == record@);
        assert forall|x: RecordView| #[trigger] old_model.contains(x) && !same_key(x, record@) implies new_model.contains(x) by {
            let k = choose|k: int| 0 <= k < old_model.len() && old_model[k] == x;
            if i < old_model.len() {
                assert(k != i);
                if k < i {
                    assert(new_model[k] == x);
                } else {
                    assert(new_model[k - 1] == x);
                }
            } else {
                assert(new_model[k] == x);
            }
        }
        assert forall|y: RecordView| #[trigger] new_model.contains(y) implies y == record@ || (old_model.contains(y) && !same_key(y, record@)) by {
            let k = choose|k: int| 0 <= k < new_model.len() && new_model[k] == y;
            if k < mid.len() {
                assert(mid[k] == y);
                if i < old_model.len() {
                    if k < i {
                        assert(old_model[k] == y);
                    } else {
                        assert(old_model[k + 1] == y);
                    }
                } else {
                    assert(old_model[k] == y);
                }
            }
        }
        assert(keys_unique(new_model)) by {
            assert forall|a: int, b: int| 0 <= a < new_model.len() && 0 <= b < new_model.len() && a != b implies !same_key(#[trigger] new_model[a], #[trigger] new_model[b]) by {
                if a < mid.len() && b < mid.len() {
                    let oa = if i < old_model.len() && a >= i { a + 1 } else { a };
                    let ob = if i < old_model.len() && b >= i { b + 1 } else { b };
                    assert(new_model[a] == old_model[oa]);
                    assert(new_model[b] == old_model[ob]);
                } else if a < mid.len() {
                    assert(!same_key(mid[a], record@));
                } else if b < mid.len() {
                    assert(!same_key(mid[b], record@));
                }
            }
        }
    }

    /// Puts `record` into the cache, inserted at `now`, in place of the entry
    /// with its key if there is one.
    #[verifier::rlimit(40)]
    pub fn insert_cache_record(&mut self, record: DnsRecord, now: i64)
        requires
            old(self).wf(),
        ensures
            final(self).wf(),
            cache_upserted(old(self).cache_model(), record@, now, final(self).cache_model()),
            final(self).records_model() == old(self).records_model(),
            final(self).upstream_model() == old(self).upstream_model(),
    {
        let ghost old_model = self.cache_model();
        let mut i: usize = 0;
        let mut found: bool = false;
        while i < self.cached.len() && !found
            invariant
                self.cache_model() == old_model,
                i <= self.cached@.len(),
                forall|k: int| 0 <= k < i ==> !same_key(#[trigger] old_model[k].0, record@),
                found ==> i < self.cached@.len() && same_key(old_model[i as int].0, record@),
            decreases self.cached@.len() - i + (if found { 0int } else { 1int }),
        {
            assert(old_model[i as int] == self.cached@[i as int]@);
            if has_same_key(&self.cached[i].record, &record) {
                found = true;
            } else {
                i = i + 1;
            }
        }
        if found {
            self.cached.remove(i);
            assert(cached_view(self.cached@) =~= old_model.remove(i as int));
        } else {
            assert(cached_view(self.cached@) =~= old_model);
        }
        let ghost mid = cached_view(self.cached@);
        assert(forall|k: int| 0 <= k < mid.len() ==> !same_key(#[trigger] mid[k].0, record@)) by {
            assert forall|k: int| 0 <= k < mid.len() implies !same_key(#[trigger] mid[k].0, record@) by {
                if found {
                    if k < i {
                        assert(mid[k] == old_model[k]);
                    } else {
                        assert(mid[k] == old_model[k + 1]);
                        assert(!same_key(old_model[k + 1].0, old_model[i as int].0));
                    }
                } else {
                    assert(mid[k] == old_model[k]);
                }
            }
        }
        let entry = CachedDnsRecord::new(record, now);
        self.cached.push(entry);
        let ghost new_model = cached_view(self.cached@);
        let ghost e = (record@, now);
        assert(new_model =~= mid.push(e));
        assert(new_model[mid.len() as int] == e);
        assert forall|x: (RecordView, i64)| #[trigger] old_model.contains(x) && !same_key(x.0, record@) implies new_model.contains(x) by {
            let k = choose|k: int| 0 <= k < old_model.len() && old_model[k] == x;
            if found {
                assert(k != i);
                if k < i {
                    assert(new_model[k] == x);
                } else {
                    assert(new_model[k - 1] == x);
                }
            } else {
                assert(new_model[k] == x);
            }
        }
        assert forall|y: (RecordView, i64)| #[trigger] new_model.contains(y) implies y == e || (old_model.contains(y) && !same_key(y.0, record@)) by {
            let k = choose|k: int| 0 <= k < new_model.len() && new_model[k] == y;
            if k < mid.len() {
                assert(mid[k] == y);
                if found {
                    if k < i {
                        assert(old_model[k] == y);
                    } else {
                        assert(old_model[k + 1] == y);
                    }
                } else {
                    assert(old_model[k] == y);
                }
            }
        }
        assert(cache_keys_unique(new_model)) by {
            assert forall|a: int, b: int| 0 <= a < new_model.len() && 0 <= b < new_model.len() && a != b implies !same_key(#[trigger] new_model[a].0, #[trigger] new_model[b].0) by {
                if a < mid.len() && b < mid.len() {
                    let oa = if found && a >= i { a + 1 } else { a };
                    let ob = if found && b >= i { b + 1 } else { b };
                    assert(new_model[a] == old_model[oa]);
                    assert(new_model[b] == old_model[ob]);
                } else if a < mid.len() {
                    assert(!same_key(mid[a].0, record@));
                } else if b < mid.len() {
                    assert(!same_key(mid[b].0, record@));
                }
            }
        }
    }

    /// Drops the cache entries that have expired at `now`.
    #[verifier::rlimit(40)]
    pub fn clean_up_cache(&mut self, now: i64)
        requires
            old(self).wf(),
        ensures
            final(self).wf(),
            evicted(old(self).cache_model(), now, final(self).cache_model()),
            final(self).records_model() == old(self).records_model(),
            final(self).upstream_model() == old(self).upstream_model(),
    {
        let ghost old_model = self.cache_model();
        let mut i: usize = 0;
        while i < self.cached.len()
            invariant
                i <= self.cached@.len(),
                self.records_model() == old(self).records_model(),
                self.upstream_model() == old(self).upstream_model(),
                self.upstreams@.len() > 0,
                keys_unique(self.records_model()),
                cache_keys_unique(self.cache_model()),
                forall|c: (RecordView, i64)| #[trigger] self.cache_model().contains(c) ==> old_model.contains(c),
                forall|c: (RecordView, i64)|
                    #[trigger] old_model.contains(c) && !expired(c.0, c.1 as int, now as int)
                        ==> self.cache_model().contains(c),
                forall|k: int|
                    0 <= k < i ==> !expired(
                        (#[trigger] self.cache_model()[k]).0,
                        self.cache_model()[k].1 as int,
                        now as int,
                    ),
            decreases self.cached@.len() - i,
        {
            let ghost before = self.cache_model();
            assert(before[i as int] == self.cached@[i as int]@);
            if is_expired(&self.cached[i], now) {
                self.cached.remove(i);
                let ghost after = self.cache_model();
                assert(after =~= before.remove(i as int));
                assert forall|c: (RecordView, i64)| #[trigger] after.contains(c) implies old_model.contains(c) by {
                    let k = choose|k: int| 0 <= k < after.len() && after[k] == c;
                    if k < i {
                        assert(before[k] == c);
                    } else {
                        assert(before[k + 1] == c);
                    }
                    assert(before.contains(c));
                }
                assert forall|c: (RecordView, i64)| #[trigger] old_model.contains(c) && !expired(c.0, c.1 as int, now as int) implies after.contains(c) by {
                    assert(before.contains(c));
                    let k = choose|k: int| 0 <= k < before.len() && before[k] == c;
                    assert(k != i);
                    if k < i {
                        assert(after[k] == c);
                    } else {
                        assert(after[k - 1] == c);
                    }
                }
                assert forall|a: int, b: int| 0 <= a < after.len() && 0 <= b < after.len() && a != b implies !same_key(#[trigger] after[a].0, #[trigger] after[b].0) by {
                    let oa = if a >= i { a + 1 } else { a };
                    let ob = if b >= i { b + 1 } else { b };
                    assert(after[a] == before[oa]);
                    assert(after[b] == before[ob]);
                }
            } else {
                i = i + 1;
            }
        }
        let ghost fin = self.cache_model();
        assert forall|c: (RecordView, i64)| #[trigger] fin.contains(c) implies !expired(c.0, c.1 as int, now as int) by {
            let k = choose|k: int| 0 <= k < fin.len() && fin[k] == c;
        }
    }

    /// The records for `domain`, authoritative then cached, each table in its
    /// order, after the cache is cleared of what expired at `now`.
    #[verifier::rlimit(40)]
    pub fn get_records(&mut self, domain: &String, now: i64) -> (r: Vec<DnsRecord>)
        requires
            old(self).wf(),
        ensures
            final(self).wf(),
            evicted(old(self).cache_model(), now, final(self).cache_model()),
            final(self).records_model() == old(self).records_model(),
            final(self).upstream_model() == old(self).upstream_model(),
            records_view(r@) == domain_records(final(self).records_model(), final(self).cache_model(), domain@),
    {
        self.clean_up_cache(now);
        let ghost recs = self.records_model();
        let ghost cache = self.cache_model();
        let mut out: Vec<DnsRecord> = Vec::new();
        let mut i: usize = 0;
        assert(records_view(out@) =~= with_domain(recs.subrange(0, 0), domain@));
        while i < self.records.len()
            invariant
                i <= self.records@.len(),
                recs == records_view(self.records@),
                records_view(out@) == with_domain(recs.subrange(0, i as int), domain@),
            decreases self.records@.len() - i,
        {
            let ghost before = records_view(out@);
            assert(recs[i as int] == self.records@[i as int]@);
            assert(recs.subrange(0, i + 1).drop_last() =~= recs.subrange(0, i as int));
            if *domain_of(&self.records[i]) == *domain {
                out.push(self.records[i].clone());
                assert(records_view(out@) =~= before.push(recs[i as int]));
            } else {
                assert(records_view(out@) =~= before);
            }
            i = i + 1;
        }
        assert(recs.subrange(0, recs.len() as int) =~= recs);
        let ghost mid = records_view(out@);
        let mut j: usize = 0;
        assert(mid =~= mid + cached_with_domain(cache.subrange(0, 0), domain@));
        while j < self.cached.len()
            invariant
                j <= self.cached@.len(),
                cache == cached_view(self.cached@),
                records_view(out@) == mid + cached_with_domain(cache.subrange(0, j as int), domain@),
            decreases self.cached@.len() - j,
        {
            let ghost before = records_view(out@);
            assert(cache[j as int] == self.cached@[j as int]@);
            assert(cache.subrange(0, j + 1).drop_last() =~= cache.subrange(0, j as int));
            if *domain_of(&self.cached[j].record) == *domain {
                out.push(self.cached[j].record.clone());
                assert(records_view(out@) =~= before.push(cache[j as int].0));
                assert(mid + cached_with_domain(cache.subrange(0, j + 1), domain@) =~= before.push(cache[j as int].0));
            } else {
                assert(records_view(out@) =~= before);
            }
            j = j + 1;
        }
        assert(cache.subrange(0, cache.len() as int) =~= cache);
        out
    }

    /// Every authoritative record, after the cache is cleared at `now`.
    pub fn get_all_records(&mut self, now: i64) -> (r: Vec<DnsRecord>)
        requires
            old(self).wf(),
        ensures
            final(self).wf(),
            evicted(old(self).cache_model(), now, final(self).cache_model()),
            final(self).records_model() == old(self).records_model(),
            final(self).upstream_model() == old(self).upstream_model(),
            records_view(r@) == final(self).records_model(),
    {
        self.clean_up_cache(now);
        let mut out: Vec<DnsRecord> = Vec::new();
        let mut i: usize = 0;
        while i < self.records.len()
            invariant
                i <= self.records@.len(),
                records_view(out@) == records_view(self.records@.subrange(0, i as int)),
            decreases self.records@.len() - i,
        {
            let ghost before = records_view(out@);
            out.push(self.records[i].clone());
            assert(records_view(out@) =~= before.push(self.records@[i as int]@));
            i = i + 1;
            assert(records_view(self.records@.subrange(0, i as int)) =~= records_view(
                self.records@.subrange(0, i - 1),
            ).push(self.records@[i - 1]@));
        }
        assert(self.records@.subrange(0, self.records@.len() as int) =~= self.records@);
        out
    }

    /// Every cache entry that has not expired at `now`, which is when the
    /// cache is cleared.
    pub fn get_all_cached_records(&mut self, now: i64) -> (r: Vec<CachedDnsRecord>)
        requires
            old(self).wf(),
        ensures
            final(self).wf(),
            evicted(old(self).cache_model(), now, final(self).cache_model()),
            final(self).records_model() == old(self).records_model(),
            final(self).upstream_model() == old(self).upstream_model(),
            cached_view(r@) == final(self).cache_model(),
    {
        self.clean_up_cache(now);
        let mut out: Vec<CachedDnsRecord> = Vec::new();
        let mut i: usize = 0;
        while i < self.cached.len()
            invariant
                i <= self.cached@.len(),
                cached_view(out@) == cached_view(self.cached@.subrange(0, i as int)),
            decreases self.cached@.len() - i,
        {
            let ghost before = cached_view(out@);
            out.push(self.cached[i].clone());
            assert(cached_view(out@) =~= before.push(self.cached@[i as int]@));
            i = i + 1;
            assert(cached_view(self.cached@.subrange(0, i as int)) =~= cached_view(
                self.cached@.subrange(0, i - 1),
            ).push(self.cached@[i - 1]@));
        }
        assert(self.cached@.subrange(0, self.cached@.len() as int) =~= self.cached@);
        out
    }

    /// Puts each of `records` into the cache at `now`, in order.
    #[verifier::rlimit(40)]
    pub fn cache_records(&mut self, records: &Vec<DnsRecord>, now: i64)
        requires
            old(self).wf(),
        ensures
            final(self).wf(),
            final(self).records_model() == old(self).records_model(),
            final(self).upstream_model() == old(self).upstream_model(),
            cached_all(records_view(records@), now, final(self).cache_model()),
    {
        let mut i: usize = 0;
        while i < records.len()
            invariant
                i <= records@.len(),
                self.wf(),
                self.records_model() == old(self).records_model(),
                self.upstream_model() == old(self).upstream_model(),
                cached_all(records_view(records@.subrange(0, i as int)), now, self.cache_model()),
            decreases records@.len() - i,
        {
            let ghost before = self.cache_model();
            let ghost prefix = records_view(records@.subrange(0, i as int));
            let ghost r = records@[i as int]@;
            self.insert_cache_record(records[i].clone(), now);
            let ghost after = self.cache_model();
            i = i + 1;
            let ghost next = records_view(records@.subrange(0, i as int));
            assert(next =~= prefix.push(r));
            assert forall|x: RecordView| #[trigger] next.contains(x) implies exists|c: (RecordView, i64)| #[trigger] after.contains(c) && same_key(c.0, x) && c.1 == now by {
                if same_key(x, r) {
                    assert(after.contains((r, now)));
                } else {
                    assert(prefix.contains(x)) by {
                        let k = choose|k: int| 0 <= k < next.len() && next[k] == x;
                        assert(k < prefix.len());
                        assert(prefix[k] == x);
                    }
                    let c = choose|c: (RecordView, i64)| #[trigger] before.contains(c) && same_key(c.0, x) && c.1 == now;
                    assert(after.contains(c));
                }
            }
        }
        assert(records@.subrange(0, records@.len() as int) =~= records@);
    }

    /// The upstream server that `draw` picks: the one at `draw` modulo their number.
    pub fn pick_upstream(&self, draw: usize) -> (r: [u8; 4])
        requires
            self.wf(),
        ensures
            r@ == self.upstream_model()[draw as int % self.upstream_model().len() as int],
            self.upstream_model().contains(r@),
    {
        let k = draw % self.upstreams.len();
        let r = octets_copy(&self.upstreams[k]);
        assert(self.upstream_model()[k as int] == r@);
        r
    }

    /// One of the upstream servers, drawn at random.
    pub fn get_random_remote_lookup_server(&self) -> (r: [u8; 4])
        requires
            self.wf(),
        ensures
            self.upstream_model().contains(r@),
    {
        self.pick_upstream(rand::random::<usize>())
    }

    /// Adds the default upstream servers that are missing; running it again
    /// changes nothing.
    pub fn initialize(&mut self)
        requires
            old(self).wf(),
        ensures
            final(self).wf(),
            final(self).records_model() == old(self).records_model(),
            final(self).cache_model() == old(self).cache_model(),
            forall|a: Seq<u8>| #[trigger] final(self).upstream_model().contains(a) <==> old(self).upstream_model().contains(a) || default_upstreams().contains(a),
    {
        let ghost before = self.upstream_model();
        self.add_upstream([8u8, 8u8, 8u8, 8u8]);
        self.add_upstream([75u8, 75u8, 75u8, 75u8]);
        assert(default_upstreams()[0] == [8u8, 8u8, 8u8, 8u8]@);
        assert(default_upstreams()[1] == [75u8, 75u8, 75u8, 75u8]@);
        assert forall|a: Seq<u8>| default_upstreams().contains(a) implies a == default_upstreams()[0] || a == default_upstreams()[1] by {
            let k = choose|k: int| 0 <= k < 2 && default_upstreams()[k] == a;
        }
    }

    /// Adds `ip` to the upstream servers unless it is there already.
    pub fn add_upstream(&mut self, ip: [u8; 4])
        requires
            old(self).wf(),
        ensures
            final(self).wf(),
            final(self).records_model() == old(self).records_model(),
            final(self).cache_model() == old(self).cache_model(),
            forall|a: Seq<u8>| #[trigger] final(self).upstream_model().contains(a) <==> old(self).upstream_model().contains(a) || a == ip@,
    {
        let ghost before = self.upstream_model();
        let mut i: usize = 0;
        while i < self.upstreams.len()
            invariant
                i <= self.upstreams@.len(),
                self.upstream_model() == before,
                self.wf(),
                self.records_model() == old(self).records_model(),
                self.cache_model() == old(self).cache_model(),
                before == old(self).upstream_model(),
                forall|k: int| 0 <= k < i ==> before[k] != ip@,
            decreases self.upstreams@.len() - i,
        {
            let u = &self.upstreams[i];
            if u[0] == ip[0] && u[1] == ip[1] && u[2] == ip[2] && u[3] == ip[3] {
                assert(before[i as int] =~= ip@);
                return;
            }
            assert(before[i as int] != ip@) by {
                assert(before[i as int] == u@);
                if u@ == ip@ {
                    assert(u@[0] == ip@[0]);
                }
            }
            i = i + 1;
        }
        self.upstreams.push(ip);
        let ghost after = self.upstream_model();
        assert(after =~= before.push(ip@));
        assert forall|a: Seq<u8>| #[trigger] after.contains(a) <==> before.contains(a) || a == ip@ by {
            if before.contains(a) {
                let k = choose|k: int| 0 <= k < before.len() && before[k] == a;
                assert(after[k] == a);
            }
            if after.contains(a) && a != ip@ {
                let k = choose|k: int| 0 <= k < after.len() && after[k] == a;
                assert(before[k] == a);
            }
            if a == ip@ {
                assert(after[before.len() as int] == a);
            }
        }
    }
}

/// Every record of `rs` has an entry of its key in `cache`, inserted at `now`.
pub open spec fn cached_all(rs: Seq<RecordView>, now: i64, cache: Seq<(RecordView, i64)>) -> bool {
    forall|x: RecordView|
        #[trigger] rs.contains(x) ==> exists|c: (RecordView, i64)|
            #[trigger] cache.contains(c) && same_key(c.0, x) && c.1 == now
}

/// A record put among the authoritative records is returned by a later
/// lookup of its domain.
pub proof fn lemma_inserted_record_is_found(
    before: Seq<RecordView>,
    r: RecordView,
    after: Seq<RecordView>,
    cache: Seq<(RecordView, i64)>,
    out: Seq<RecordView>,
)
    requires
        upserted(before, r, after),
        out == domain_records(after, cache, r.preamble().domain),
    ensures
        out.contains(r),
{
    lemma_domain_records_lookup(after, cache, r.preamble().domain);
}

/// A record cached at second `t` with a time to live of 0 is not returned by
/// a lookup of its domain at any later second, unless it is also among the
/// authoritative records.
pub proof fn lemma_zero_ttl_cache_entry_expires(
    before: Seq<(RecordView, i64)>,
    r: RecordView,
    t: i64,
    cached: Seq<(RecordView, i64)>,
    now: i64,
    cleaned: Seq<(RecordView, i64)>,
    records: Seq<RecordView>,
    out: Seq<RecordView>,
)
    requires
        cache_upserted(before, r, t, cached),
        r.preamble().ttl == 0,
        now > t,
        evicted(cached, now, cleaned),
        out == domain_records(records, cleaned, r.preamble().domain),
        !records.contains(r),
    ensures
        !out.contains(r),
{
    lemma_domain_records_lookup(records, cleaned, r.preamble().domain);
    if out.contains(r) {
        let t2 = choose|t2: i64| #[trigger] cleaned.contains((r, t2));
        assert(cached.contains((r, t2)));
        assert(same_key(r, r));
        assert((r, t2) == (r, t));
    }
}

} // verus!
