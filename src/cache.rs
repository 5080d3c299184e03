//! TTL-aware record cache with positive and negative entries.
//!
//! The cache maps a normalized owner name to a domain entry, which maps a
//! record type code to a record set: either records with their insertion
//! times, or a negative (no such records) marker with its own TTL. Entries
//! are never evicted; they stop being returned once their TTL has elapsed.
//! Times are whole seconds since the Unix epoch.

use vstd::prelude::*;
use dashmap::DashMap;
use crate::buffer::{decoded_text, lower_bytes, text_of_octets, lower_octets};
use crate::protocol::{
    record_views, DnsHeader, DnsPacket, DnsRecord, PacketView, QueryType, RecordView, ResultCode,
};
use vstd::utf8::encode_utf8;

verus! {

#[verifier::external_type_specification]
#[verifier::external_body]
#[verifier::reject_recursive_types(K)]
#[verifier::reject_recursive_types(V)]
#[verifier::reject_recursive_types(S)]
pub struct ExDashMap<K, V, S>(DashMap<K, V, S>);

/// The record sets held by a domain entry's map, by type code.
pub uninterp spec fn type_sets(m: DashMap<u16, RecordSet>) -> Map<u16, SetView>;

/// Relies on `DashMap::new`: a new map is empty.
#[verifier::external_body]
fn new_type_map() -> (r: DashMap<u16, RecordSet>)
    ensures
        type_sets(r).dom() == Set::<u16>::empty(),
{
    DashMap::new()
}

/// Relies on `DashMap::get`: the value stored under `k`, if any (cloned out of the guard).
#[verifier::external_body]
fn type_map_get(m: &DashMap<u16, RecordSet>, k: u16) -> (r: Option<RecordSet>)
    ensures
        type_sets(*m).contains_key(k) ==> r is Some && r->Some_0@ == type_sets(*m)[k],
        !type_sets(*m).contains_key(k) ==> r is None,
{
    match m.get(&k) {
        Some(entry) => Some(entry.value().clone()),
        None => None,
    }
}

/// Relies on `DashMap::insert`: afterwards `k` maps to `v` and nothing else changes.
#[verifier::external_body]
fn type_map_insert(m: &mut DashMap<u16, RecordSet>, k: u16, v: RecordSet)
    ensures
        type_sets(*final(m)) == type_sets(*old(m)).insert(k, v@),
{
    m.insert(k, v);
}

/// Relies on `chrono::Local::now` and `DateTime::timestamp`: the current
/// time in whole seconds since the Unix epoch.
#[verifier::external_body]
fn now_seconds() -> (r: i64) {
    chrono::Local::now().timestamp()
}

/// Errors of a shared cache.
#[derive(Debug, Clone, Copy, PartialEq, Eq, Structural)]
pub enum CacheError {
    /// The lock around the cache was poisoned by a panicking writer.
    PoisonedLock,
}

/// What the cache knows about a (name, type) pair at a given time.
#[derive(Debug, Clone, Copy, PartialEq, Eq, Structural)]
pub enum CacheState {
    /// At least one valid record.
    PositiveCache,
    /// A valid negative entry.
    NegativeCache,
    /// Nothing valid.
    NotCached,
}

/// A cached record and the time it was stored.
#[derive(Clone, Debug)]
pub struct RecordEntry {
    pub record: DnsRecord,
    pub timestamp: i64,
}

/// Whether an entry stored at `at` with TTL `ttl` is still valid at `now`.
pub open spec fn alive(at: i64, ttl: u32, now: i64) -> bool {
    at + ttl > now
}

impl RecordEntry {
    /// Whether the entry is still valid at `now`: stored at `timestamp`, it
    /// lives for the record's TTL.
    pub fn is_valid(&self, now: i64) -> (r: bool)
        ensures
            r == alive(self.timestamp, self.record@.ttl(), now),
    {
        (self.timestamp as i128) + (self.record.get_ttl() as i128) > (now as i128)
    }
}

/// The record set of one (name, type) pair.
#[derive(Clone, Debug)]
pub enum RecordSet {
    /// A negative entry: no records of `qtype` exist, for `ttl` seconds from `timestamp`.
    NoRecords { qtype: QueryType, ttl: u32, timestamp: i64 },
    /// Records of `qtype`, each with the time it was stored, in insertion order.
    Records { qtype: QueryType, records: Vec<RecordEntry> },
}

/// The value of a record set.
pub enum SetView {
    Negative { ttl: u32, at: i64 },
    Positive { entries: Seq<(RecordView, i64)> },
}

/// The values of a list of cache entries.
pub open spec fn entry_views(es: Seq<RecordEntry>) -> Seq<(RecordView, i64)> {
    es.map_values(|e: RecordEntry| (e.record@, e.timestamp))
}

impl View for RecordSet {
    type V = SetView;

    open spec fn view(&self) -> SetView {
        match self {
            RecordSet::NoRecords { ttl, timestamp, .. } => SetView::Negative { ttl: *ttl, at: *timestamp },
            RecordSet::Records { records, .. } => SetView::Positive { entries: entry_views(records@) },
        }
    }
}


/// A record with its TTL cleared: records are the same cache entry when
/// these agree.
pub open spec fn record_key(r: RecordView) -> RecordView {
    match r {
        RecordView::Unknown { domain, qtype, data_len, .. } => RecordView::Unknown {
            domain,
            qtype,
            data_len,
            ttl: 0,
        },
        RecordView::A { domain, addr, .. } => RecordView::A { domain, addr, ttl: 0 },
        RecordView::NS { domain, host, .. } => RecordView::NS { domain, host, ttl: 0 },
        RecordView::CNAME { domain, host, .. } => RecordView::CNAME { domain, host, ttl: 0 },
        RecordView::SOA { domain, m_name, r_name, serial, refresh, retry, expire, minimum, .. } => {
            RecordView::SOA { domain, m_name, r_name, serial, refresh, retry, expire, minimum, ttl: 0 }
        },
        RecordView::MX { domain, priority, host, .. } => RecordView::MX { domain, priority, host, ttl: 0 },
        RecordView::TXT { domain, data, .. } => RecordView::TXT { domain, data, ttl: 0 },
        RecordView::AAAA { domain, addr, .. } => RecordView::AAAA { domain, addr, ttl: 0 },
        RecordView::SRV { domain, priority, weight, port, host, .. } => RecordView::SRV {
            domain,
            priority,
            weight,
            port,
            host,
            ttl: 0,
        },
        RecordView::Opt { .. } => r,
    }
}

/// The index of the first entry from `i` on holding the same record as `r`, TTL aside.
pub open spec fn first_same(es: Seq<(RecordView, i64)>, r: RecordView, i: int) -> Option<int>
    decreases es.len() - i,
{
    if i < 0 || i >= es.len() {
        None
    } else if record_key(es[i].0) == record_key(r) {
        Some(i)
    } else {
        first_same(es, r, i + 1)
    }
}

/// `es` with entry `e` stored: it replaces the entry holding the same record, or is appended.
pub open spec fn upsert(es: Seq<(RecordView, i64)>, e: (RecordView, i64)) -> Seq<(RecordView, i64)> {
    match first_same(es, e.0, 0) {
        Some(j) => es.update(j, e),
        None => es.push(e),
    }
}

/// The sets of a domain after storing record `r` at `now`: a positive set
/// of its type gains the entry; any other set of its type is replaced by one
/// holding just the entry.
pub open spec fn set_after_store(sets: Map<u16, SetView>, r: RecordView, now: i64) -> Map<u16, SetView> {
    let code = r.query_type().code();
    let entries = if sets.contains_key(code) && sets[code] is Positive {
        upsert(sets[code]->Positive_entries, (r, now))
    } else {
        seq![(r, now)]
    };
    sets.insert(code, SetView::Positive { entries })
}

/// The records of the entries valid at `now`, in order.
pub open spec fn valid_views(es: Seq<(RecordView, i64)>, now: i64) -> Seq<RecordView>
    decreases es.len(),
{
    if es.len() == 0 {
        seq![]
    } else {
        let prev = valid_views(es.drop_last(), now);
        if alive(es.last().1, es.last().0.ttl(), now) {
            prev.push(es.last().0)
        } else {
            prev
        }
    }
}

/// The state of type `code` in a domain's sets at `now`.
pub open spec fn set_state(sets: Map<u16, SetView>, code: u16, now: i64) -> CacheState {
    if !sets.contains_key(code) {
        CacheState::NotCached
    } else {
        match sets[code] {
            SetView::Negative { ttl, at } => if alive(at, ttl, now) {
                CacheState::NegativeCache
            } else {
                CacheState::NotCached
            },
            SetView::Positive { entries } => if valid_views(entries, now).len() > 0 {
                CacheState::PositiveCache
            } else {
                CacheState::NotCached
            },
        }
    }
}

/// The records of type `code` in a domain's sets valid at `now`.
pub open spec fn set_records(sets: Map<u16, SetView>, code: u16, now: i64) -> Seq<RecordView> {
    if sets.contains_key(code) && sets[code] is Positive {
        valid_views(sets[code]->Positive_entries, now)
    } else {
        seq![]
    }
}

/// The cache key of an owner name: its octets lowercased (ASCII), then decoded.
pub open spec fn name_key(s: Seq<char>) -> Seq<char> {
    decoded_text(lower_bytes(encode_utf8(s)))
}

/// The sets of key `k` in a cache model, empty when absent.
pub open spec fn sets_of(m: Map<Seq<char>, Map<u16, SetView>>, k: Seq<char>) -> Map<u16, SetView> {
    if m.contains_key(k) {
        m[k]
    } else {
        Map::empty()
    }
}

/// A cache model after storing record `r` at `now` (records without an owner are ignored).
pub open spec fn store_record_model(m: Map<Seq<char>, Map<u16, SetView>>, r: RecordView, now: i64) -> Map<
    Seq<char>,
    Map<u16, SetView>,
> {
    match r.domain() {
        Some(d) => m.insert(name_key(d), set_after_store(sets_of(m, name_key(d)), r, now)),
        None => m,
    }
}

/// A cache model after storing records `rs` in order at `now`.
pub open spec fn store_model(m: Map<Seq<char>, Map<u16, SetView>>, rs: Seq<RecordView>, now: i64) -> Map<
    Seq<char>,
    Map<u16, SetView>,
>
    decreases rs.len(),
{
    if rs.len() == 0 {
        m
    } else {
        store_record_model(store_model(m, rs.drop_last(), now), rs.last(), now)
    }
}

/// A cache model after a negative entry for (`k`, `code`) with `ttl` is stored at `now`.
pub open spec fn store_negative_model(
    m: Map<Seq<char>, Map<u16, SetView>>,
    k: Seq<char>,
    code: u16,
    ttl: u32,
    now: i64,
) -> Map<Seq<char>, Map<u16, SetView>> {
    m.insert(k, sets_of(m, k).insert(code, SetView::Negative { ttl, at: now }))
}

/// The header of a synthesized negative answer.
pub open spec fn nxdomain_header() -> DnsHeader {
    DnsHeader { rescode: ResultCode::NXDOMAIN, ..DnsHeader::empty() }
}

/// The answer a cache model gives for key `k` and type `t` at `now`:
/// nothing when not cached; an empty NXDOMAIN message when negative; else a
/// message whose answers are the valid records of the type and whose
/// authorities are the valid NS records of the name.
pub open spec fn lookup_model(m: Map<Seq<char>, Map<u16, SetView>>, k: Seq<char>, t: QueryType, now: i64) -> Option<PacketView> {
    let sets = sets_of(m, k);
    match set_state(sets, t.code(), now) {
        CacheState::PositiveCache => Some(
            PacketView {
                header: DnsHeader::empty(),
                questions: seq![],
                answers: set_records(sets, t.code(), now),
                authorities: set_records(sets, 2, now),
                resources: seq![],
            },
        ),
        CacheState::NegativeCache => Some(
            PacketView {
                header: nxdomain_header(),
                questions: seq![],
                answers: seq![],
                authorities: seq![],
                resources: seq![],
            },
        ),
        CacheState::NotCached => None,
    }
}

/// Whether two records are the same cache entry, TTL aside.
pub fn records_match(a: &DnsRecord, b: &DnsRecord) -> (r: bool)
    ensures
        r == (record_key(a@) == record_key(b@)),
{
    match (a, b) {
        (
            DnsRecord::UNKNOWN { domain: d1, qtype: q1, data_len: l1, .. },
            DnsRecord::UNKNOWN { domain: d2, qtype: q2, data_len: l2, .. },
        ) => *d1 == *d2 && *q1 == *q2 && *l1 == *l2,
        (DnsRecord::A { domain: d1, addr: a1, .. }, DnsRecord::A { domain: d2, addr: a2, .. }) => {
            let same = a1[0] == a2[0] && a1[1] == a2[1] && a1[2] == a2[2] && a1[3] == a2[3];
            if same {
                assert(a1@ =~= a2@);
            } else {
                assert(a1@ != a2@ ==> record_key(a@) != record_key(b@));
                assert(a1@ != a2@);
            }
            *d1 == *d2 && same
        },
        (DnsRecord::NS { domain: d1, host: h1, .. }, DnsRecord::NS { domain: d2, host: h2, .. }) => {
            *d1 == *d2 && *h1 == *h2
        },
        (
            DnsRecord::CNAME { domain: d1, host: h1, .. },
            DnsRecord::CNAME { domain: d2, host: h2, .. },
        ) => *d1 == *d2 && *h1 == *h2,
        (
            DnsRecord::SOA {
                domain: d1,
                m_name: m1,
                r_name: r1,
                serial: s1,
                refresh: f1,
                retry: t1,
                expire: e1,
                minimum: n1,
                ..
            },
            DnsRecord::SOA {
                domain: d2,
                m_name: m2,
                r_name: r2,
                serial: s2,
                refresh: f2,
                retry: t2,
                expire: e2,
                minimum: n2,
                ..
            },
        ) => *d1 == *d2 && *m1 == *m2 && *r1 == *r2 && *s1 == *s2 && *f1 == *f2 && *t1 == *t2
            && *e1 == *e2 && *n1 == *n2,
        (
            DnsRecord::MX { domain: d1, priority: p1, host: h1, .. },
            DnsRecord::MX { domain: d2, priority: p2, host: h2, .. },
        ) => *d1 == *d2 && *p1 == *p2 && *h1 == *h2,
        (DnsRecord::TXT { domain: d1, data: x1, .. }, DnsRecord::TXT { domain: d2, data: x2, .. }) => {
            *d1 == *d2 && *x1 == *x2
        },
        (DnsRecord::AAAA { domain: d1, addr: a1, .. }, DnsRecord::AAAA { domain: d2, addr: a2, .. }) => {
            let mut i: usize = 0;
            let mut same = true;
            while i < 8
                invariant
                    i <= 8,
                    same == (forall|k: int| 0 <= k < i ==> a1@[k] == a2@[k]),
                decreases 8 - i,
            {
                if a1[i] != a2[i] {
                    same = false;
                }
                i = i + 1;
            }
            if same {
                assert(a1@ =~= a2@);
            } else {
                proof {
                    let k = choose|k: int| 0 <= k < 8 && a1@[k] != a2@[k];
                    assert(a1@[k] != a2@[k]);
                }
            }
            *d1 == *d2 && same
        },
        (
            DnsRecord::SRV { domain: d1, priority: p1, weight: w1, port: o1, host: h1, .. },
            DnsRecord::SRV { domain: d2, priority: p2, weight: w2, port: o2, host: h2, .. },
        ) => *d1 == *d2 && *p1 == *p2 && *w1 == *w2 && *o1 == *o2 && *h1 == *h2,
        (
            DnsRecord::OPT { packet_len: p1, flags: f1, data: x1 },
            DnsRecord::OPT { packet_len: p2, flags: f2, data: x2 },
        ) => *p1 == *p2 && *f1 == *f2 && *x1 == *x2,
        _ => false,
    }
}

/// Stores `entry` in `records`, replacing the entry holding the same record.
fn upsert_entry(records: &mut Vec<RecordEntry>, entry: RecordEntry)
    ensures
        entry_views(final(records)@) == upsert(entry_views(old(records)@), (entry.record@, entry.timestamp)),
{
    let ghost es = entry_views(records@);
    let ghost e = (entry.record@, entry.timestamp);
    let mut i: usize = 0;
    while i < records.len()
        invariant
            i <= records@.len(),
            records@ == old(records)@,
            es == entry_views(records@),
            e == (entry.record@, entry.timestamp),
            first_same(es, e.0, 0) == first_same(es, e.0, i as int),
        decreases records@.len() - i,
    {
        assert(es[i as int] == (records@[i as int].record@, records@[i as int].timestamp));
        if records_match(&records[i].record, &entry.record) {
            let ghost before = records@;
            let ghost ent = entry;
            records.set(i, entry);
            assert(records@ == before.update(i as int, ent));
            assert forall|j: int| 0 <= j < es.len() implies #[trigger] entry_views(records@)[j] == es.update(i as int, e)[j] by {
                if j != i {
                    assert(records@[j] == before[j]);
                }
            }
            assert(entry_views(records@) =~= es.update(i as int, e));
            return;
        }
        i = i + 1;
    }
    records.push(entry);
    assert(entry_views(records@) =~= es.push(e));
}

/// The cache key of an owner name.
pub fn normalize_name(s: &str) -> (r: String)
    ensures
        r@ == name_key(s@),
{
    let lowered = lower_octets(s.as_bytes());
    text_of_octets(lowered.as_slice())
}

/// The cached sets of one owner name, with its counters.
#[derive(Debug)]
pub struct DomainEntry {
    /// The normalized owner name.
    pub domain: String,
    /// The record set of each type, by type code.
    pub record_types: DashMap<u16, RecordSet>,
    /// How many lookups were answered from this entry.
    pub hits: u32,
    /// How many stores changed this entry.
    pub updates: u32,
}

/// `n + 1`, saturating at the largest value.
pub open spec fn bump(n: u32) -> u32 {
    if n < u32::MAX {
        (n + 1) as u32
    } else {
        n
    }
}

impl DomainEntry {
    /// An entry for `domain` with no sets and zero counters.
    pub fn new(domain: String) -> (r: Self)
        ensures
            r.domain == domain,
            type_sets(r.record_types) == Map::<u16, SetView>::empty(),
            r.hits == 0,
            r.updates == 0,
    {
        let m = new_type_map();
        assert(type_sets(m) =~= Map::<u16, SetView>::empty());
        DomainEntry { domain, record_types: m, hits: 0, updates: 0 }
    }

    /// Installs a negative entry for `qtype` lasting `ttl` seconds from `now`.
    pub fn store_nxdomain(&mut self, qtype: QueryType, ttl: u32, now: i64)
        ensures
            final(self).domain == old(self).domain,
            final(self).hits == old(self).hits,
            final(self).updates == bump(old(self).updates),
            type_sets(final(self).record_types) == type_sets(old(self).record_types).insert(
                qtype.code(),
                SetView::Negative { ttl, at: now },
            ),
    {
        self.updates = if self.updates < u32::MAX {
            self.updates + 1
        } else {
            self.updates
        };
        let new_set = RecordSet::NoRecords { qtype, ttl, timestamp: now };
        type_map_insert(&mut self.record_types, qtype.to_num(), new_set);
    }

    /// Stores `rec` as stored at `now`, replacing an entry holding the same record.
    pub fn store_record(&mut self, rec: &DnsRecord, now: i64)
        ensures
            final(self).domain == old(self).domain,
            final(self).hits == old(self).hits,
            final(self).updates == bump(old(self).updates),
            type_sets(final(self).record_types) == set_after_store(
                type_sets(old(self).record_types),
                rec@,
                now,
            ),
    {
        self.updates = if self.updates < u32::MAX {
            self.updates + 1
        } else {
            self.updates
        };
        let qtype = rec.get_querytype();
        let code = qtype.to_num();
        let entry = RecordEntry { record: rec.duplicate(), timestamp: now };
        let new_set = match type_map_get(&self.record_types, code) {
            Some(RecordSet::Records { qtype: t, records }) => {
                let mut records = records;
                upsert_entry(&mut records, entry);
                RecordSet::Records { qtype: t, records }
            },
            _ => {
                let mut records: Vec<RecordEntry> = Vec::new();
                records.push(entry);
                assert(entry_views(records@) =~= seq![(rec@, now)]);
                RecordSet::Records { qtype, records }
            },
        };
        type_map_insert(&mut self.record_types, code, new_set);
    }

    /// Whether `qtype` is positively cached, negatively cached, or not cached at `now`.
    pub fn get_cache_state(&self, qtype: QueryType, now: i64) -> (r: CacheState)
        ensures
            r == set_state(type_sets(self.record_types), qtype.code(), now),
    {
        match type_map_get(&self.record_types, qtype.to_num()) {
            Some(RecordSet::Records { records, .. }) => {
                let ghost es = entry_views(records@);
                let mut i: usize = 0;
                while i < records.len()
                    invariant
                        i <= records@.len(),
                        es == entry_views(records@),
                        valid_views(es.subrange(0, i as int), now).len() == 0,
                        type_sets(self.record_types).contains_key(qtype.code()),
                        type_sets(self.record_types)[qtype.code()] == (SetView::Positive { entries: es }),
                    decreases records@.len() - i,
                {
                    assert(es.subrange(0, i + 1).drop_last() =~= es.subrange(0, i as int));
                    assert(es.subrange(0, i + 1).last() == es[i as int]);
                    assert(es[i as int] == (records@[i as int].record@, records@[i as int].timestamp));
                    if records[i].is_valid(now) {
                        proof {
                            assert(valid_views(es.subrange(0, i + 1), now).len() > 0);
                            lemma_valid_views_prefix(es, i + 1, now);
                        }
                        return CacheState::PositiveCache;
                    }
                    i = i + 1;
                }
                assert(es.subrange(0, i as int) =~= es);
                CacheState::NotCached
            },
            Some(RecordSet::NoRecords { ttl, timestamp, .. }) => {
                if (timestamp as i128) + (ttl as i128) > (now as i128) {
                    CacheState::NegativeCache
                } else {
                    CacheState::NotCached
                }
            },
            None => CacheState::NotCached,
        }
    }

    /// Appends the records of `qtype` valid at `now` to `result_vec`, in order.
    pub fn fill_query_result(&self, qtype: QueryType, result_vec: &mut Vec<DnsRecord>, now: i64)
        ensures
            record_views(final(result_vec)@) == record_views(old(result_vec)@) + set_records(
                type_sets(self.record_types),
                qtype.code(),
                now,
            ),
    {
        let ghost start = record_views(result_vec@);
        if let Some(RecordSet::Records { records, .. }) = type_map_get(&self.record_types, qtype.to_num()) {
            let ghost es = entry_views(records@);
            let mut i: usize = 0;
            assert(es.subrange(0, 0) =~= Seq::<(RecordView, i64)>::empty());
            assert(start + seq![] =~= start);
            while i < records.len()
                invariant
                    i <= records@.len(),
                    es == entry_views(records@),
                    start == record_views(old(result_vec)@),
                    record_views(result_vec@) == start + valid_views(es.subrange(0, i as int), now),
                decreases records@.len() - i,
            {
                assert(es.subrange(0, i + 1).drop_last() =~= es.subrange(0, i as int));
                assert(es.subrange(0, i + 1).last() == es[i as int]);
                assert(es[i as int] == (records@[i as int].record@, records@[i as int].timestamp));
                if records[i].is_valid(now) {
                    let copy = records[i].record.duplicate();
                    let ghost before = record_views(result_vec@);
                    result_vec.push(copy);
                    assert(record_views(result_vec@) =~= before.push(copy@));
                    assert(record_views(result_vec@) =~= start + valid_views(es.subrange(0, i + 1), now));
                } else {
                    assert(valid_views(es.subrange(0, i + 1), now) == valid_views(es.subrange(0, i as int), now));
                }
                i = i + 1;
            }
            assert(es.subrange(0, i as int) =~= es);
        } else {
            assert(record_views(result_vec@) =~= start + seq![]);
        }
    }
}

/// A prefix with a valid entry has a valid entry overall.
proof fn lemma_valid_views_prefix(es: Seq<(RecordView, i64)>, j: int, now: i64)
    requires
        0 <= j <= es.len(),
        valid_views(es.subrange(0, j), now).len() > 0,
    ensures
        valid_views(es, now).len() > 0,
    decreases es.len(),
{
    if j < es.len() {
        assert(es.subrange(0, j) =~= es.drop_last().subrange(0, j));
        lemma_valid_views_prefix(es.drop_last(), j, now);
    } else {
        assert(es.subrange(0, j) =~= es);
    }
}


/// The model of a list of domain entries: each entry's normalized name
/// mapped to its sets.
pub open spec fn model_of(es: Seq<DomainEntry>) -> Map<Seq<char>, Map<u16, SetView>>
    decreases es.len(),
{
    if es.len() == 0 {
        Map::empty()
    } else {
        model_of(es.drop_last()).insert(es.last().domain@, type_sets(es.last().record_types))
    }
}

/// Whether no two entries share a name.
pub open spec fn distinct_domains(es: Seq<DomainEntry>) -> bool {
    forall|i: int, j: int| 0 <= i < j < es.len() ==> es[i].domain@ != es[j].domain@
}

proof fn lemma_model_at(es: Seq<DomainEntry>, i: int)
    requires
        distinct_domains(es),
        0 <= i < es.len(),
    ensures
        model_of(es).contains_key(es[i].domain@),
        model_of(es)[es[i].domain@] == type_sets(es[i].record_types),
    decreases es.len(),
{
    if i < es.len() - 1 {
        let p = es.drop_last();
        assert(p[i] == es[i]);
        assert(es[i].domain@ != es[es.len() - 1].domain@);
        lemma_model_at(p, i);
    }
}

proof fn lemma_model_absent(es: Seq<DomainEntry>, k: Seq<char>)
    requires
        forall|i: int| 0 <= i < es.len() ==> (#[trigger] es[i]).domain@ != k,
    ensures
        !model_of(es).contains_key(k),
    decreases es.len(),
{
    if es.len() > 0 {
        let p = es.drop_last();
        assert forall|i: int| 0 <= i < p.len() implies (#[trigger] p[i]).domain@ != k by {
            assert(p[i] == es[i]);
        }
        assert(es.last() == es[es.len() - 1]);
        lemma_model_absent(p, k);
    }
}

proof fn lemma_model_update(es: Seq<DomainEntry>, i: int, e: DomainEntry)
    requires
        distinct_domains(es),
        0 <= i < es.len(),
        e.domain@ == es[i].domain@,
    ensures
        model_of(es.update(i, e)) == model_of(es).insert(e.domain@, type_sets(e.record_types)),
        distinct_domains(es.update(i, e)),
    decreases es.len(),
{
    let u = es.update(i, e);
    assert forall|a: int, b: int| 0 <= a < b < u.len() implies u[a].domain@ != u[b].domain@ by {
        assert(u[a].domain@ == es[a].domain@);
        assert(u[b].domain@ == es[b].domain@);
    }
    if i == es.len() - 1 {
        assert(u.drop_last() =~= es.drop_last());
        assert(model_of(u) =~= model_of(es).insert(e.domain@, type_sets(e.record_types)));
    } else {
        let p = es.drop_last();
        assert(u.drop_last() =~= p.update(i, e));
        assert(p[i] == es[i]);
        lemma_model_update(p, i, e);
        assert(es.last().domain@ != e.domain@);
        assert(model_of(u) =~= model_of(es).insert(e.domain@, type_sets(e.record_types)));
    }
}

/// The record cache.
pub struct Cache {
    domain_entries: Vec<DomainEntry>,
}

impl Cache {
    /// The cache's content: normalized owner name to record sets by type code.
    pub closed spec fn model(&self) -> Map<Seq<char>, Map<u16, SetView>> {
        model_of(self.domain_entries@)
    }

    /// Internal consistency: one entry per name.
    pub closed spec fn wf(&self) -> bool {
        distinct_domains(self.domain_entries@)
    }

    /// An empty cache.
    pub fn new() -> (r: Self)
        ensures
            r.wf(),
            r.model() == Map::<Seq<char>, Map<u16, SetView>>::empty(),
    {
        Cache { domain_entries: Vec::new() }
    }

    /// The index of the entry for normalized name `key`.
    fn find_entry(&self, key: &String) -> (r: Option<usize>)
        requires
            self.wf(),
        ensures
            match r {
                Some(i) => i < self.domain_entries@.len() && self.domain_entries@[i as int].domain@ == key@,
                None => forall|i: int| 0 <= i < self.domain_entries@.len() ==> (#[trigger] self.domain_entries@[i]).domain@ != key@,
            },
    {
        let mut i: usize = 0;
        while i < self.domain_entries.len()
            invariant
                i <= self.domain_entries@.len(),
                forall|j: int| 0 <= j < i ==> (#[trigger] self.domain_entries@[j]).domain@ != key@,
            decreases self.domain_entries@.len() - i,
        {
            if self.domain_entries[i].domain == *key {
                return Some(i);
            }
            i = i + 1;
        }
        None
    }

    /// The index of the entry for normalized name `key`, created empty when absent.
    fn get_or_create_entry(&mut self, key: String) -> (r: usize)
        requires
            old(self).wf(),
        ensures
            final(self).wf(),
            r < final(self).domain_entries@.len(),
            final(self).domain_entries@[r as int].domain@ == key@,
            final(self).model() == old(self).model().insert(key@, sets_of(old(self).model(), key@)),
    {
        match self.find_entry(&key) {
            Some(i) => {
                proof {
                    lemma_model_at(self.domain_entries@, i as int);
                    assert(self.model() =~= self.model().insert(key@, sets_of(self.model(), key@)));
                }
                i
            },
            None => {
                proof {
                    lemma_model_absent(self.domain_entries@, key@);
                }
                let ghost k = key@;
                let entry = DomainEntry::new(key);
                assert(type_sets(entry.record_types) =~= sets_of(old(self).model(), k));
                self.domain_entries.push(entry);
                assert(self.domain_entries@.drop_last() =~= old(self).domain_entries@);
                proof {
                    let es = self.domain_entries@;
                    assert forall|a: int, b: int| 0 <= a < b < es.len() implies es[a].domain@ != es[b].domain@ by {
                        if b == es.len() - 1 {
                            assert(es[a] == old(self).domain_entries@[a]);
                        } else {
                            assert(es[a] == old(self).domain_entries@[a]);
                            assert(es[b] == old(self).domain_entries@[b]);
                        }
                    }
                }
                self.domain_entries.len() - 1
            },
        }
    }

    /// Stores `rec` at `now` under its normalized owner name.
    fn store_one(&mut self, rec: &DnsRecord, now: i64)
        requires
            old(self).wf(),
        ensures
            final(self).wf(),
            final(self).model() == store_record_model(old(self).model(), rec@, now),
    {
        if let Some(d) = rec.get_domain() {
            let key = normalize_name(d.as_str());
            let idx = self.get_or_create_entry(key);
            let ghost es = self.domain_entries@;
            let ghost m1 = self.model();
            self.domain_entries[idx].store_record(rec, now);
            proof {
                lemma_model_at(es, idx as int);
                lemma_model_update(es, idx as int, self.domain_entries@[idx as int]);
                assert(self.domain_entries@ =~= es.update(idx as int, self.domain_entries@[idx as int]));
                assert(self.model() =~= store_record_model(old(self).model(), rec@, now));
            }
        }
    }

    /// Stores `records` in order, each as stored at `now`; a record equal to
    /// a cached one (TTL aside) replaces it.
    pub fn store_at(&mut self, records: &[DnsRecord], now: i64)
        requires
            old(self).wf(),
        ensures
            final(self).wf(),
            final(self).model() == store_model(old(self).model(), record_views(records@), now),
    {
        let ghost m0 = self.model();
        let mut i: usize = 0;
        assert(record_views(records@.subrange(0, 0)) =~= Seq::<RecordView>::empty());
        while i < records.len()
            invariant
                self.wf(),
                i <= records@.len(),
                m0 == old(self).model(),
                self.model() == store_model(m0, record_views(records@.subrange(0, i as int)), now),
            decreases records@.len() - i,
        {
            self.store_one(&records[i], now);
            proof {
                let vs = record_views(records@.subrange(0, i + 1));
                assert(vs.drop_last() =~= record_views(records@.subrange(0, i as int)));
                assert(vs.last() == records@[i as int]@);
            }
            i = i + 1;
        }
        assert(records@.subrange(0, i as int) =~= records@);
    }

    /// Stores `records` in order as of the current time.
    pub fn store(&mut self, records: &[DnsRecord])
        requires
            old(self).wf(),
        ensures
            final(self).wf(),
            exists|now: i64| final(self).model() == store_model(old(self).model(), record_views(records@), now),
    {
        let now = now_seconds();
        self.store_at(records, now);
    }

    /// Installs a negative entry for (`qname`, `qtype`) lasting `ttl` seconds from `now`.
    pub fn store_nxdomain_at(&mut self, qname: &str, qtype: QueryType, ttl: u32, now: i64)
        requires
            old(self).wf(),
        ensures
            final(self).wf(),
            final(self).model() == store_negative_model(old(self).model(), name_key(qname@), qtype.code(), ttl, now),
    {
        let key = normalize_name(qname);
        let idx = self.get_or_create_entry(key);
        let ghost es = self.domain_entries@;
        self.domain_entries[idx].store_nxdomain(qtype, ttl, now);
        proof {
            lemma_model_at(es, idx as int);
            lemma_model_update(es, idx as int, self.domain_entries@[idx as int]);
            assert(self.domain_entries@ =~= es.update(idx as int, self.domain_entries@[idx as int]));
            assert(self.model() =~= store_negative_model(old(self).model(), name_key(qname@), qtype.code(), ttl, now));
        }
    }

    /// Installs a negative entry for (`qname`, `qtype`) lasting `ttl` seconds from now.
    pub fn store_nxdomain(&mut self, qname: &str, qtype: QueryType, ttl: u32)
        requires
            old(self).wf(),
        ensures
            final(self).wf(),
            exists|now: i64| final(self).model() == store_negative_model(old(self).model(), name_key(qname@), qtype.code(), ttl, now),
    {
        let now = now_seconds();
        self.store_nxdomain_at(qname, qtype, ttl, now);
    }

    /// The state of (`key`, `qtype`) at `now`, for a normalized name `key`.
    fn get_cache_state(&self, key: &String, qtype: QueryType, now: i64) -> (r: CacheState)
        requires
            self.wf(),
        ensures
            r == set_state(sets_of(self.model(), key@), qtype.code(), now),
    {
        match self.find_entry(key) {
            Some(i) => {
                proof {
                    lemma_model_at(self.domain_entries@, i as int);
                }
                self.domain_entries[i].get_cache_state(qtype, now)
            },
            None => {
                proof {
                    lemma_model_absent(self.domain_entries@, key@);
                    assert(sets_of(self.model(), key@) =~= Map::<u16, SetView>::empty());
                }
                CacheState::NotCached
            },
        }
    }

    /// Appends the records of (`key`, `qtype`) valid at `now`, counting a
    /// hit when `increment_stats` is set.
    fn fill_queryresult(
        &mut self,
        key: &String,
        qtype: QueryType,
        result_vec: &mut Vec<DnsRecord>,
        increment_stats: bool,
        now: i64,
    )
        requires
            old(self).wf(),
        ensures
            final(self).wf(),
            final(self).model() == old(self).model(),
            record_views(final(result_vec)@) == record_views(old(result_vec)@) + set_records(
                sets_of(old(self).model(), key@),
                qtype.code(),
                now,
            ),
    {
        match self.find_entry(key) {
            Some(i) => {
                let ghost es = self.domain_entries@;
                proof {
                    lemma_model_at(es, i as int);
                }
                if increment_stats {
                    let h = self.domain_entries[i].hits;
                    self.domain_entries[i].hits = if h < u32::MAX {
                        h + 1
                    } else {
                        h
                    };
                    proof {
                        lemma_model_update(es, i as int, self.domain_entries@[i as int]);
                        assert(self.domain_entries@ =~= es.update(i as int, self.domain_entries@[i as int]));
                        assert(self.model() =~= old(self).model());
                    }
                }
                self.domain_entries[i].fill_query_result(qtype, result_vec, now);
            },
            None => {
                proof {
                    lemma_model_absent(self.domain_entries@, key@);
                    assert(sets_of(self.model(), key@) =~= Map::<u16, SetView>::empty());
                    assert(record_views(result_vec@) + seq![] =~= record_views(result_vec@));
                }
            },
        }
    }

    /// The cached answer for (`qname`, `qtype`) at `now`: records of the
    /// type valid at `now` with the name's valid NS records as authorities,
    /// an NXDOMAIN message for a valid negative entry, or nothing. A positive
    /// answer counts a hit for the name.
    pub fn lookup_at(&mut self, qname: &str, qtype: QueryType, now: i64) -> (r: Option<DnsPacket>)
        requires
            old(self).wf(),
        ensures
            final(self).wf(),
            final(self).model() == old(self).model(),
            match lookup_model(old(self).model(), name_key(qname@), qtype, now) {
                Some(p) => r is Some && r->Some_0@ == p,
                None => r is None,
            },
    {
        let key = normalize_name(qname);
        match self.get_cache_state(&key, qtype, now) {
            CacheState::PositiveCache => {
                let mut qr = DnsPacket::new();
                self.fill_queryresult(&key, qtype, &mut qr.answers, true, now);
                self.fill_queryresult(&key, QueryType::NS, &mut qr.authorities, false, now);
                assert(record_views(Seq::<DnsRecord>::empty()) =~= Seq::<RecordView>::empty());
                assert(qr@.questions =~= Seq::<(Seq<char>, QueryType)>::empty());
                assert(qr@.resources =~= Seq::<RecordView>::empty());
                assert(qr@.answers =~= set_records(sets_of(old(self).model(), key@), qtype.code(), now));
                assert(qr@.authorities =~= set_records(sets_of(old(self).model(), key@), 2, now));
                Some(qr)
            },
            CacheState::NegativeCache => {
                let mut qr = DnsPacket::new();
                qr.header.rescode = ResultCode::NXDOMAIN;
                assert(qr@.questions =~= Seq::<(Seq<char>, QueryType)>::empty());
                assert(qr@.answers =~= Seq::<RecordView>::empty());
                assert(qr@.authorities =~= Seq::<RecordView>::empty());
                assert(qr@.resources =~= Seq::<RecordView>::empty());
                Some(qr)
            },
            CacheState::NotCached => None,
        }
    }

    /// The cached answer for (`qname`, `qtype`) at the current time.
    pub fn lookup(&mut self, qname: &str, qtype: QueryType) -> (r: Option<DnsPacket>)
        requires
            old(self).wf(),
        ensures
            final(self).wf(),
            final(self).model() == old(self).model(),
            exists|now: i64|
                match #[trigger] lookup_model(old(self).model(), name_key(qname@), qtype, now) {
                    Some(p) => r is Some && r->Some_0@ == p,
                    None => r is None,
                },
    {
        let now = now_seconds();
        self.lookup_at(qname, qtype, now)
    }
}


proof fn lemma_first_same_range(es: Seq<(RecordView, i64)>, r: RecordView, i: int)
    requires
        0 <= i,
    ensures
        first_same(es, r, i) matches Some(j) ==> i <= j < es.len(),
    decreases es.len() - i,
{
    if i < es.len() && record_key(es[i].0) != record_key(r) {
        lemma_first_same_range(es, r, i + 1);
    }
}

proof fn lemma_valid_contains(es: Seq<(RecordView, i64)>, j: int, now: i64)
    requires
        0 <= j < es.len(),
        alive(es[j].1, es[j].0.ttl(), now),
    ensures
        valid_views(es, now).contains(es[j].0),
    decreases es.len(),
{
    let p = valid_views(es.drop_last(), now);
    if j == es.len() - 1 {
        assert(valid_views(es, now) == p.push(es[j].0));
        assert(valid_views(es, now)[p.len() as int] == es[j].0);
    } else {
        assert(es.drop_last()[j] == es[j]);
        lemma_valid_contains(es.drop_last(), j, now);
        let k = choose|k: int| 0 <= k < p.len() && p[k] == es[j].0;
        if alive(es.last().1, es.last().0.ttl(), now) {
            assert(valid_views(es, now)[k] == es[j].0);
        } else {
            assert(valid_views(es, now)[k] == es[j].0);
        }
    }
}

/// Cache TTL: once a record is stored at `t0`, lookups of its owner and type
/// return it until its TTL has elapsed; and when no records of that type
/// were cached for the owner before, lookups from `t0 + ttl` on miss.
pub proof fn lemma_cache_ttl(m: Map<Seq<char>, Map<u16, SetView>>, r: RecordView, t0: i64, t: i64)
    requires
        r.domain() is Some,
    ensures
        ({
            let k = name_key(r.domain()->Some_0);
            let m2 = store_model(m, seq![r], t0);
            let code = r.query_type().code();
            &&& t < t0 + r.ttl() ==> {
                &&& lookup_model(m2, k, r.query_type(), t) is Some
                &&& lookup_model(m2, k, r.query_type(), t)->Some_0.answers.contains(r)
            }
            &&& (t >= t0 + r.ttl() && !(sets_of(m, k).contains_key(code) && sets_of(m, k)[code] is Positive))
                ==> lookup_model(m2, k, r.query_type(), t) is None
        }),
{
    let k = name_key(r.domain()->Some_0);
    let code = r.query_type().code();
    assert(seq![r].drop_last() =~= Seq::<RecordView>::empty());
    assert(seq![r].last() == r);
    let m2 = store_model(m, seq![r], t0);
    assert(store_model(m, Seq::<RecordView>::empty(), t0) == m);
    assert(m2 == store_record_model(m, r, t0));
    let sets = sets_of(m, k);
    let sets2 = set_after_store(sets, r, t0);
    assert(sets_of(m2, k) == sets2);
    let entries = sets2[code]->Positive_entries;
    if sets.contains_key(code) && sets[code] is Positive {
        let old_entries = sets[code]->Positive_entries;
        lemma_first_same_range(old_entries, r, 0);
        match first_same(old_entries, r, 0) {
            Some(j) => {
                assert(entries[j] == (r, t0));
                if t < t0 + r.ttl() {
                    lemma_valid_contains(entries, j, t);
                }
            },
            None => {
                assert(entries[old_entries.len() as int] == (r, t0));
                if t < t0 + r.ttl() {
                    lemma_valid_contains(entries, old_entries.len() as int, t);
                }
            },
        }
    } else {
        assert(entries == seq![(r, t0)]);
        assert(entries[0] == (r, t0));
        if t < t0 + r.ttl() {
            lemma_valid_contains(entries, 0, t);
        } else {
            assert(entries.drop_last() =~= Seq::<(RecordView, i64)>::empty());
            assert(valid_views(Seq::<(RecordView, i64)>::empty(), t) =~= Seq::<RecordView>::empty());
            assert(valid_views(entries, t) =~= Seq::<RecordView>::empty());
        }
    }
}

/// Negative cache: a negative entry stored at `t0` with `ttl` (the SOA
/// minimum of the NXDOMAIN response) makes lookups of that name and type
/// answer NXDOMAIN before `t0 + ttl`, and miss from then on.
pub proof fn lemma_negative_ttl(
    m: Map<Seq<char>, Map<u16, SetView>>,
    name: Seq<char>,
    qt: QueryType,
    ttl: u32,
    t0: i64,
    t: i64,
)
    ensures
        ({
            let k = name_key(name);
            let m2 = store_negative_model(m, k, qt.code(), ttl, t0);
            &&& t < t0 + ttl ==> {
                &&& lookup_model(m2, k, qt, t) is Some
                &&& lookup_model(m2, k, qt, t)->Some_0.header.rescode == ResultCode::NXDOMAIN
                &&& lookup_model(m2, k, qt, t)->Some_0.answers.len() == 0
            }
            &&& t >= t0 + ttl ==> lookup_model(m2, k, qt, t) is None
        }),
{
    let k = name_key(name);
    let m2 = store_negative_model(m, k, qt.code(), ttl, t0);
    assert(sets_of(m2, k) == sets_of(m, k).insert(qt.code(), SetView::Negative { ttl, at: t0 }));
}


proof fn lemma_valid_views_contains(es: Seq<(RecordView, i64)>, now: i64, r: RecordView)
    ensures
        valid_views(es, now).contains(r) <==> exists|j: int|
            0 <= j < es.len() && alive(es[j].1, es[j].0.ttl(), now) && (#[trigger] es[j]).0 == r,
    decreases es.len(),
{
    if es.len() > 0 {
        let p = es.drop_last();
        lemma_valid_views_contains(p, now, r);
        let vp = valid_views(p, now);
        let last = es.last();
        if valid_views(es, now).contains(r) {
            let k = choose|k: int| 0 <= k < valid_views(es, now).len() && valid_views(es, now)[k] == r;
            if alive(last.1, last.0.ttl(), now) && k == vp.len() {
                assert(es[es.len() - 1] == last);
            } else {
                assert(vp[k] == r);
                assert(vp.contains(r));
                let j = choose|j: int| 0 <= j < p.len() && alive(p[j].1, p[j].0.ttl(), now) && (#[trigger] p[j]).0 == r;
                assert(es[j] == p[j]);
            }
        }
        if exists|j: int| 0 <= j < es.len() && alive(es[j].1, es[j].0.ttl(), now) && (#[trigger] es[j]).0 == r {
            let j = choose|j: int| 0 <= j < es.len() && alive(es[j].1, es[j].0.ttl(), now) && (#[trigger] es[j]).0 == r;
            if j == es.len() - 1 {
                assert(valid_views(es, now)[vp.len() as int] == r);
            } else {
                assert(p[j] == es[j]);
                assert(vp.contains(r));
                let k = choose|k: int| 0 <= k < vp.len() && vp[k] == r;
                assert(valid_views(es, now)[k] == r);
            }
        }
    }
}

/// Whether the entries valid at `t` are exactly `(a, t0)` for the records `a` of `rs`.
pub open spec fn fresh_entries(es: Seq<(RecordView, i64)>, rs: Seq<RecordView>, t0: i64, t: i64) -> bool {
    &&& forall|j: int| 0 <= j < es.len() && alive(es[j].1, es[j].0.ttl(), t) ==> (#[trigger] es[j]).1 == t0 && rs.contains(es[j].0)
    &&& forall|i: int| 0 <= i < rs.len() ==> exists|j: int| 0 <= j < es.len() && #[trigger] es[j] == (#[trigger] rs[i], t0)
}

/// Whether every record of `rs` is owned by a name with key `k`, has type
/// code `code`, is still valid at `t` when stored at `t0`, and no two are
/// the same record TTL aside.
pub open spec fn answer_set(rs: Seq<RecordView>, k: Seq<char>, code: u16, t0: i64, t: i64) -> bool {
    &&& forall|i: int| 0 <= i < rs.len() ==> (#[trigger] rs[i]).domain() is Some && name_key(rs[i].domain()->Some_0) == k
    &&& forall|i: int| 0 <= i < rs.len() ==> (#[trigger] rs[i]).query_type().code() == code
    &&& forall|i: int| 0 <= i < rs.len() ==> t < t0 + (#[trigger] rs[i]).ttl()
    &&& forall|i: int, j: int| 0 <= i < j < rs.len() ==> record_key(#[trigger] rs[i]) != record_key(#[trigger] rs[j])
}

proof fn lemma_store_answer_set(
    m: Map<Seq<char>, Map<u16, SetView>>,
    k: Seq<char>,
    code: u16,
    rs: Seq<RecordView>,
    t0: i64,
    t: i64,
)
    requires
        rs.len() > 0,
        t0 <= t,
        answer_set(rs, k, code, t0, t),
        set_state(sets_of(m, k), code, t0) == CacheState::NotCached,
    ensures
        sets_of(store_model(m, rs, t0), k).contains_key(code),
        sets_of(store_model(m, rs, t0), k)[code] is Positive,
        fresh_entries(sets_of(store_model(m, rs, t0), k)[code]->Positive_entries, rs, t0, t),
    decreases rs.len(),
{
    let p = rs.drop_last();
    let x = rs.last();
    assert(x == rs[rs.len() - 1]);
    assert forall|i: int| 0 <= i < p.len() implies #[trigger] p[i] == rs[i] by {}
    assert(answer_set(p, k, code, t0, t));
    let mp = store_model(m, p, t0);
    if p.len() > 0 {
        lemma_store_answer_set(m, k, code, p, t0, t);
    } else {
        assert(mp == m);
    }
    let sets = sets_of(mp, k);
    assert(store_model(m, rs, t0) == store_record_model(mp, x, t0));
    assert(sets_of(store_model(m, rs, t0), k) == set_after_store(sets, x, t0));
    let es2 = set_after_store(sets, x, t0)[code]->Positive_entries;
    if sets.contains_key(code) && sets[code] is Positive {
        let es = sets[code]->Positive_entries;
        // Before `x`, the valid entries are those of the earlier records.
        assert(fresh_entries(es, p, t0, t)) by {
            if p.len() == 0 {
                assert forall|j: int| 0 <= j < es.len() && alive(es[j].1, es[j].0.ttl(), t) implies (#[trigger] es[j]).1 == t0 && p.contains(es[j].0) by {
                    lemma_valid_views_contains(es, t0, es[j].0);
                    assert(valid_views(es, t0).len() == 0);
                    assert(!valid_views(es, t0).contains(es[j].0));
                }
            }
        }
        lemma_first_same_range(es, x, 0);
        match first_same(es, x, 0) {
            Some(j) => {
                assert(es2 == es.update(j, (x, t0)));
                assert(record_key(es[j].0) == record_key(x)) by {
                    lemma_first_same_found(es, x, 0);
                }
                // The replaced entry was not valid: a valid one would hold an earlier record with x's key.
                assert(!alive(es[j].1, es[j].0.ttl(), t)) by {
                    if alive(es[j].1, es[j].0.ttl(), t) {
                        assert(p.contains(es[j].0));
                        let i = choose|i: int| 0 <= i < p.len() && p[i] == es[j].0;
                        assert(rs[i] == es[j].0);
                        assert(record_key(rs[i]) != record_key(rs[rs.len() - 1]));
                    }
                }
                assert forall|jj: int| 0 <= jj < es2.len() && alive(es2[jj].1, es2[jj].0.ttl(), t) implies (#[trigger] es2[jj]).1 == t0 && rs.contains(es2[jj].0) by {
                    if jj == j {
                        assert(rs[rs.len() - 1] == x);
                    } else {
                        assert(es2[jj] == es[jj]);
                        let i = choose|i: int| 0 <= i < p.len() && p[i] == es[jj].0;
                        assert(rs[i] == p[i]);
                    }
                }
                assert forall|i: int| 0 <= i < rs.len() implies exists|jj: int| 0 <= jj < es2.len() && #[trigger] es2[jj] == (#[trigger] rs[i], t0) by {
                    if i == rs.len() - 1 {
                        assert(es2[j] == (rs[i], t0));
                    } else {
                        assert(rs[i] == p[i]);
                        let jj = choose|jj: int| 0 <= jj < es.len() && #[trigger] es[jj] == (p[i], t0);
                        assert(alive(es[jj].1, es[jj].0.ttl(), t));
                        assert(jj != j);
                        assert(es2[jj] == es[jj]);
                    }
                }
            },
            None => {
                assert(es2 == es.push((x, t0)));
                assert forall|jj: int| 0 <= jj < es2.len() && alive(es2[jj].1, es2[jj].0.ttl(), t) implies (#[trigger] es2[jj]).1 == t0 && rs.contains(es2[jj].0) by {
                    if jj == es.len() {
                        assert(rs[rs.len() - 1] == x);
                    } else {
                        assert(es2[jj] == es[jj]);
                        let i = choose|i: int| 0 <= i < p.len() && p[i] == es[jj].0;
                        assert(rs[i] == p[i]);
                    }
                }
                assert forall|i: int| 0 <= i < rs.len() implies exists|jj: int| 0 <= jj < es2.len() && #[trigger] es2[jj] == (#[trigger] rs[i], t0) by {
                    if i == rs.len() - 1 {
                        assert(es2[es.len() as int] == (rs[i], t0));
                    } else {
                        assert(rs[i] == p[i]);
                        let jj = choose|jj: int| 0 <= jj < es.len() && #[trigger] es[jj] == (p[i], t0);
                        assert(es2[jj] == es[jj]);
                    }
                }
            },
        }
    } else {
        // Nothing positive was cached for the type: only possible before the first record.
        assert(p.len() == 0);
        assert(es2 == seq![(x, t0)]);
        assert(rs.len() == 1);
        assert(rs[0] == x);
        assert(es2[0] == (rs[0], t0));
    }
}

proof fn lemma_first_same_found(es: Seq<(RecordView, i64)>, r: RecordView, i: int)
    requires
        0 <= i,
    ensures
        first_same(es, r, i) matches Some(j) ==> record_key(es[j].0) == record_key(r),
    decreases es.len() - i,
{
    if i < es.len() && record_key(es[i].0) != record_key(r) {
        lemma_first_same_found(es, r, i + 1);
    }
}

/// Storing an answer set that was not cached makes lookups within every
/// record's TTL return exactly that set of records.
pub proof fn lemma_cached_answer_set(
    m: Map<Seq<char>, Map<u16, SetView>>,
    qname: Seq<char>,
    qtype: QueryType,
    rs: Seq<RecordView>,
    t0: i64,
    t: i64,
)
    requires
        lookup_model(m, name_key(qname), qtype, t0) is None,
        rs.len() > 0,
        t0 <= t,
        answer_set(rs, name_key(qname), qtype.code(), t0, t),
    ensures
        lookup_model(store_model(m, rs, t0), name_key(qname), qtype, t) is Some,
        forall|r: RecordView|
            lookup_model(store_model(m, rs, t0), name_key(qname), qtype, t)->Some_0.answers.contains(r)
                <==> rs.contains(r),
{
    let k = name_key(qname);
    let code = qtype.code();
    assert(set_state(sets_of(m, k), code, t0) == CacheState::NotCached);
    lemma_store_answer_set(m, k, code, rs, t0, t);
    let m2 = store_model(m, rs, t0);
    let es = sets_of(m2, k)[code]->Positive_entries;
    let jj = choose|jj: int| 0 <= jj < es.len() && #[trigger] es[jj] == (#[trigger] rs[0], t0);
    lemma_valid_views_contains(es, t, rs[0]);
    assert(valid_views(es, t).contains(rs[0]));
    assert forall|r: RecordView| valid_views(es, t).contains(r) <==> rs.contains(r) by {
        lemma_valid_views_contains(es, t, r);
        if rs.contains(r) {
            let i = choose|i: int| 0 <= i < rs.len() && rs[i] == r;
            let j = choose|j: int| 0 <= j < es.len() && #[trigger] es[j] == (#[trigger] rs[i], t0);
            assert(alive(es[j].1, es[j].0.ttl(), t));
        }
    }
}

} // verus!
