//! Resolution decisions. Answering from the authority, the cache, or by
//! refusal is decided here; iterative resolution is a state machine whose
//! steps say which query to send next, and whose transitions take the
//! responses (and the results of recursive glue lookups) as they arrive.
//! The caller performs the network exchanges.

use vstd::prelude::*;
use vstd::string::*;
use crate::buffer::label_len;
use crate::cache::{
    answer_set, lemma_cached_answer_set, lookup_model, name_key, store_model,
    store_negative_model, Cache, CacheError, SetView,
};
use crate::protocol::RecordView;
use crate::client::ClientError;
use crate::protocol::{
    delegation_from, dotted_quad, first_a_from, record_views, resolved_from, soa_minimum_from,
    DnsHeader, DnsPacket, PacketView, QueryType, ResultCode,
};

verus! {

/// Errors of a resolution.
#[derive(Debug, Clone, PartialEq, Eq)]
pub enum ResolveError {
    /// A query to another server failed.
    Client(ClientError),
    /// The cache could not be used.
    Cache(CacheError),
    /// No name server for the name (or any ancestor) is known.
    NoServerFound,
}

/// Largest number of queries of one iterative resolution.
pub const MAX_ITERATIONS: u32 = 16;

/// The value of a message carrying only result code `rescode`.
pub open spec fn error_response(rescode: ResultCode) -> PacketView {
    PacketView {
        header: DnsHeader { rescode, ..DnsHeader::empty() },
        questions: seq![],
        answers: seq![],
        authorities: seq![],
        resources: seq![],
    }
}

/// A message carrying only result code `rescode`.
pub fn create_error_response(rescode: ResultCode) -> (r: DnsPacket)
    ensures
        r@ == error_response(rescode),
{
    let mut packet = DnsPacket::new();
    packet.header.rescode = rescode;
    assert(packet@.questions =~= Seq::<(Seq<char>, QueryType)>::empty());
    assert(packet@.answers =~= error_response(rescode).answers);
    assert(packet@.authorities =~= error_response(rescode).authorities);
    assert(packet@.resources =~= error_response(rescode).resources);
    packet
}

/// The answer given without asking another server, if any: NOTIMP for an
/// unknown type; the authority's answer; REFUSED when recursion is not
/// desired or not allowed; the cached answer; for A and AAAA, the cached
/// CNAME answer. `None` means another server must be asked.
pub open spec fn local_answer(
    m: Map<Seq<char>, Map<u16, SetView>>,
    qname: Seq<char>,
    qtype: QueryType,
    recursion: bool,
    allow_recursive: bool,
    authority: Option<PacketView>,
    now: i64,
) -> Option<PacketView> {
    if qtype is UNKNOWN {
        Some(error_response(ResultCode::NOTIMP))
    } else if authority is Some {
        authority
    } else if !recursion || !allow_recursive {
        Some(error_response(ResultCode::REFUSED))
    } else if lookup_model(m, name_key(qname), qtype, now) is Some {
        lookup_model(m, name_key(qname), qtype, now)
    } else if qtype == QueryType::A || qtype == QueryType::AAAA {
        lookup_model(m, name_key(qname), QueryType::CNAME, now)
    } else {
        None
    }
}

/// The view of an optional message.
pub open spec fn packet_view_of(p: Option<DnsPacket>) -> Option<PacketView> {
    match p {
        Some(x) => Some(x@),
        None => None,
    }
}

/// Answers (`qname`, `qtype`) without asking another server when possible
/// (see `local_answer`); `authority` is the locally served zones' answer.
pub fn answer_locally(
    cache: &mut Cache,
    qname: &str,
    qtype: QueryType,
    recursion: bool,
    allow_recursive: bool,
    authority: Option<DnsPacket>,
    now: i64,
) -> (r: Option<DnsPacket>)
    requires
        old(cache).wf(),
    ensures
        final(cache).wf(),
        final(cache).model() == old(cache).model(),
        packet_view_of(r) == local_answer(
            old(cache).model(),
            qname@,
            qtype,
            recursion,
            allow_recursive,
            packet_view_of(authority),
            now,
        ),
{
    if let QueryType::UNKNOWN(_) = qtype {
        return Some(create_error_response(ResultCode::NOTIMP));
    }
    if let Some(response) = authority {
        return Some(response);
    }
    if !recursion || !allow_recursive {
        return Some(create_error_response(ResultCode::REFUSED));
    }
    if let Some(response) = cache.lookup_at(qname, qtype, now) {
        return Some(response);
    }
    match qtype {
        QueryType::A | QueryType::AAAA => cache.lookup_at(qname, QueryType::CNAME, now),
        _ => None,
    }
}

/// The name server address found for suffix `domain`: its cached NS
/// records name a host whose cached A record gives the address.
pub open spec fn server_for(m: Map<Seq<char>, Map<u16, SetView>>, domain: Seq<char>, now: i64) -> Option<Seq<char>> {
    match lookup_model(m, name_key(domain), QueryType::NS, now) {
        Some(p) => match delegation_from(p.authorities, domain, 0) {
            Some(host) => match lookup_model(m, name_key(host), QueryType::A, now) {
                Some(p2) => match first_a_from(p2.answers, 0) {
                    Some(a) => Some(dotted_quad(a)),
                    None => None,
                },
                None => None,
            },
            None => None,
        },
        None => None,
    }
}

/// The start of the suffix after the one starting at `k`: past the next
/// dot, or the end of the name (the root).
pub open spec fn next_suffix(n: Seq<char>, k: int) -> int {
    if k + label_len(n, k) + 1 <= n.len() {
        k + label_len(n, k) + 1
    } else {
        n.len() as int
    }
}

/// The first name server found scanning the suffixes of `n` from the one
/// starting at `k` down to the root.
pub open spec fn seed_from(m: Map<Seq<char>, Map<u16, SetView>>, n: Seq<char>, k: int, now: i64) -> Option<Seq<char>>
    decreases n.len() - k,
{
    if k < 0 || k > n.len() {
        None
    } else if server_for(m, n.subrange(k, n.len() as int), now) is Some {
        server_for(m, n.subrange(k, n.len() as int), now)
    } else if k == n.len() {
        None
    } else {
        seed_from(m, n, next_suffix(n, k), now)
    }
}

/// The name server address for one suffix, from the cache.
fn server_for_suffix(cache: &mut Cache, domain: &str, now: i64) -> (r: Option<String>)
    requires
        old(cache).wf(),
    ensures
        final(cache).wf(),
        final(cache).model() == old(cache).model(),
        match server_for(old(cache).model(), domain@, now) {
            Some(a) => r is Some && r->Some_0@ == a,
            None => r is None,
        },
{
    let qr = match cache.lookup_at(domain, QueryType::NS, now) {
        Some(qr) => qr,
        None => return None,
    };
    let host = match qr.get_unresolved_ns(domain) {
        Some(h) => h,
        None => return None,
    };
    let qr2 = match cache.lookup_at(host.as_str(), QueryType::A, now) {
        Some(q) => q,
        None => return None,
    };
    qr2.get_random_a()
}

/// The address of the closest known name server for `qname`: the suffixes
/// of the name are scanned from the full name down to the root, and the
/// first whose cached NS records lead to a cached address wins.
pub fn find_nameserver(cache: &mut Cache, qname: &str, now: i64) -> (r: Option<String>)
    requires
        old(cache).wf(),
    ensures
        final(cache).wf(),
        final(cache).model() == old(cache).model(),
        match seed_from(old(cache).model(), qname@, 0, now) {
            Some(a) => r is Some && r->Some_0@ == a,
            None => r is None,
        },
{
    let n = qname.unicode_len();
    let ghost m = cache.model();
    let mut k: usize = 0;
    loop
        invariant
            cache.wf(),
            cache.model() == m,
            m == old(cache).model(),
            n == qname@.len(),
            k <= n,
            seed_from(m, qname@, 0, now) == seed_from(m, qname@, k as int, now),
        decreases n - k,
    {
        let domain = qname.substring_char(k, n);
        if let Some(addr) = server_for_suffix(cache, domain, now) {
            return Some(addr);
        }
        if k == n {
            return None;
        }
        let mut j = k;
        while j < n && qname.get_char(j) != '.'
            invariant
                k <= j <= n,
                n == qname@.len(),
                label_len(qname@, k as int) == (j - k) + label_len(qname@, j as int),
            decreases n - j,
        {
            j = j + 1;
        }
        k = if j < n {
            j + 1
        } else {
            n
        };
    }
}

/// The next thing an iterative resolution needs done.
pub enum Step {
    /// Send a non-recursive query for the name and type to this server address.
    Query(String),
    /// Resolve the A record of this name server host, then report it with `on_glue`.
    ResolveGlue(String),
    /// The resolution is over with this response.
    Done(DnsPacket),
}

/// An iterative resolution in progress.
pub struct RecursiveLookup {
    /// The name being resolved.
    pub qname: String,
    /// The type being resolved.
    pub qtype: QueryType,
    /// The address of the server to ask next.
    pub server: String,
    /// How many responses have been handled.
    pub iterations: u32,
    /// The response whose glueless delegation is being resolved.
    pub pending: Option<DnsPacket>,
}

/// The cache after a response's answers, authorities and additional records are stored at `now`.
pub open spec fn store_response(m: Map<Seq<char>, Map<u16, SetView>>, p: PacketView, now: i64) -> Map<Seq<char>, Map<u16, SetView>> {
    store_model(store_model(store_model(m, p.answers, now), p.authorities, now), p.resources, now)
}

impl RecursiveLookup {
    /// A resolution of (`qname`, `qtype`) starting at server address `server`.
    pub fn new(qname: String, qtype: QueryType, server: String) -> (r: Self)
        ensures
            r.qname == qname,
            r.qtype == qtype,
            r.server == server,
            r.iterations == 0,
            r.pending is None,
    {
        RecursiveLookup { qname, qtype, server, iterations: 0, pending: None }
    }

    /// The first step: query the starting server.
    pub fn first_step(&self) -> (r: Step)
        ensures
            r is Query && r->Query_0@ == self.server@,
    {
        Step::Query(self.server.clone())
    }

    /// Handles the response of the server last queried. An answer (NOERROR
    /// with answers) is cached and ends the resolution; NXDOMAIN ends it,
    /// storing a negative entry with the SOA minimum when there is one; a
    /// delegation with glue is cached and followed; a delegation without
    /// glue asks for the host's address; anything else ends with the
    /// response. Following stops with the response once the iteration cap
    /// is reached.
    pub fn on_response(&mut self, cache: &mut Cache, response: DnsPacket, now: i64) -> (r: Step)
        requires
            old(cache).wf(),
            old(self).iterations < MAX_ITERATIONS,
        ensures
            final(cache).wf(),
            final(self).qname == old(self).qname,
            final(self).qtype == old(self).qtype,
            final(self).iterations == old(self).iterations + 1,
            final(self).iterations >= MAX_ITERATIONS ==> r is Done,
            ({
                let p = response@;
                let m = old(cache).model();
                let q = old(self).qname@;
                let done = r is Done && r->Done_0@ == p;
                let more = final(self).iterations < MAX_ITERATIONS;
                if p.answers.len() > 0 && p.header.rescode == ResultCode::NOERROR {
                    done && final(cache).model() == store_response(m, p, now)
                } else if p.header.rescode == ResultCode::NXDOMAIN {
                    &&& done
                    &&& final(cache).model() == match soa_minimum_from(p.authorities, 0) {
                        Some(ttl) => store_negative_model(m, name_key(q), old(self).qtype.code(), ttl, now),
                        None => m,
                    }
                } else if resolved_from(p.authorities, p.resources, q, 0) is Some {
                    let a = dotted_quad(resolved_from(p.authorities, p.resources, q, 0)->Some_0);
                    &&& final(cache).model() == store_response(m, p, now)
                    &&& more ==> r is Query && r->Query_0@ == a && final(self).server@ == a
                    &&& !more ==> done
                } else if delegation_from(p.authorities, q, 0) is Some {
                    let h = delegation_from(p.authorities, q, 0)->Some_0;
                    &&& final(cache).model() == m
                    &&& more ==> r is ResolveGlue && r->ResolveGlue_0@ == h && final(self).pending is Some
                        && final(self).pending->Some_0@ == p
                    &&& !more ==> done
                } else {
                    done && final(cache).model() == m
                }
            }),
    {
        self.iterations = self.iterations + 1;
        let more = self.iterations < MAX_ITERATIONS;
        if response.answers.len() > 0 && response.header.rescode == ResultCode::NOERROR {
            cache.store_at(response.answers.as_slice(), now);
            cache.store_at(response.authorities.as_slice(), now);
            cache.store_at(response.resources.as_slice(), now);
            return Step::Done(response);
        }
        if response.header.rescode == ResultCode::NXDOMAIN {
            if let Some(ttl) = response.get_ttl_from_soa() {
                cache.store_nxdomain_at(self.qname.as_str(), self.qtype, ttl, now);
            }
            return Step::Done(response);
        }
        if let Some(addr) = response.get_resolved_ns(self.qname.as_str()) {
            cache.store_at(response.answers.as_slice(), now);
            cache.store_at(response.authorities.as_slice(), now);
            cache.store_at(response.resources.as_slice(), now);
            if !more {
                return Step::Done(response);
            }
            self.server = addr.clone();
            return Step::Query(addr);
        }
        if let Some(host) = response.get_unresolved_ns(self.qname.as_str()) {
            if !more {
                return Step::Done(response);
            }
            self.pending = Some(response);
            return Step::ResolveGlue(host);
        }
        Step::Done(response)
    }

    /// Handles the result of resolving a glueless name server's address:
    /// with an A answer the resolution continues at that address; without
    /// one it ends with the delegating response.
    pub fn on_glue(&mut self, glue: &DnsPacket) -> (r: Step)
        requires
            old(self).pending is Some,
        ensures
            final(self).qname == old(self).qname,
            final(self).qtype == old(self).qtype,
            final(self).iterations == old(self).iterations,
            match first_a_from(record_views(glue.answers@), 0) {
                Some(a) => r is Query && r->Query_0@ == dotted_quad(a) && final(self).server@ == dotted_quad(a),
                None => r is Done && r->Done_0@ == old(self).pending->Some_0@,
            },
    {
        match glue.get_random_a() {
            Some(addr) => {
                self.server = addr.clone();
                Step::Query(addr)
            },
            None => {
                let pending = self.pending.take();
                match pending {
                    Some(p) => Step::Done(p),
                    None => Step::Done(DnsPacket::new()),
                }
            },
        }
    }
}

/// Handles a forwarded query's response: its answers are cached at `now`
/// and it is returned unchanged.
pub fn forward_response(cache: &mut Cache, response: DnsPacket, now: i64) -> (r: DnsPacket)
    requires
        old(cache).wf(),
    ensures
        final(cache).wf(),
        final(cache).model() == store_model(old(cache).model(), record_views(response.answers@), now),
        r@ == response@,
{
    cache.store_at(response.answers.as_slice(), now);
    response
}


/// Resolver idempotence: when resolving (`qname`, `qtype`) had to ask
/// another server, and that server's answer records were cached at `t0` (as
/// `forward_response` and `on_response` do), resolving the same name and
/// type again at any `t` within every answer's TTL is answered locally with
/// exactly the same records.
pub proof fn lemma_resolution_repeats(
    m: Map<Seq<char>, Map<u16, SetView>>,
    qname: Seq<char>,
    qtype: QueryType,
    answers: Seq<RecordView>,
    t0: i64,
    t: i64,
)
    requires
        local_answer(m, qname, qtype, true, true, None, t0) is None,
        answers.len() > 0,
        t0 <= t,
        answer_set(answers, name_key(qname), qtype.code(), t0, t),
    ensures
        local_answer(store_model(m, answers, t0), qname, qtype, true, true, None, t) is Some,
        forall|r: RecordView|
            local_answer(store_model(m, answers, t0), qname, qtype, true, true, None, t)->Some_0.answers.contains(r)
                <==> answers.contains(r),
{
    lemma_cached_answer_set(m, qname, qtype, answers, t0, t);
}

} // verus!
