//! In-memory response cache with **Vary-aware variants**.
//!
//! A single `proxy_cache_key` may resolve to multiple stored variants, each
//! keyed by the values of the request headers the upstream said it varies on.
//! The classic case is `Vary: Accept-Encoding`, where the gzip and identity
//! bodies are both legitimate to cache but must not be served to the wrong
//! client.
//!
//! ## Caching is rejected (with `X-Cache: BYPASS`) when:
//!
//! - The request method is not `GET`.
//! - The response has a `Set-Cookie` header.
//! - The response has `Cache-Control: no-store`, `private`, or `no-cache`.
//! - The response status doesn't match any `proxy_cache_valid` rule.
//! - The response body exceeds [`MAX_ENTRY_BYTES`] (4 MiB).
//! - The response's `Vary` contains `*` (uncacheable per RFC 9111).

use crate::headers::{
    get_text, get_value, get_values, header_map, header_text, header_value, header_values,
    line_views, readable, readable_text, value_views,
};
use crate::metrics::{
    Metrics, record_cache_evict, record_cache_hit, record_cache_miss, set_cache_bytes,
    set_cache_entries,
};
use crate::request_ctx::or_empty;
use crate::text::{lemma_views_push, lower, same, split, split_at, to_lower, trim, trimmed, views};
use crate::time::{Clock, Duration};
use vstd::prelude::*;
use vstd::string::*;
use vstd::utf8::encode_utf8;

verus! {

pub const MAX_ENTRY_BYTES: usize = 4 * 1024 * 1024;

/// One cached response with its Vary-axis fingerprint.
#[derive(Debug)]
pub struct Entry {
    pub status: u16,
    pub headers: Vec<(String, Vec<u8>)>,
    pub body: Vec<u8>,
    /// When the entry goes stale, in nanoseconds on the store's clock.
    pub expires_at: u64,
    /// Lowercased request-header names this entry depends on (from the
    /// upstream's `Vary` response header). Empty = the entry is valid
    /// for any request matching the cache key.
    pub vary_headers: Vec<String>,
    /// Pre-computed signature of `vary_headers` against the request that
    /// produced this entry. Used to match the right variant on lookup.
    pub vary_signature: String,
}

/// Model of an [`Entry`].
pub struct EntryV {
    pub status: u16,
    pub headers: Seq<(Seq<char>, Seq<u8>)>,
    pub body: Seq<u8>,
    pub expires_at: u64,
    pub vary_headers: Seq<Seq<char>>,
    pub vary_signature: Seq<char>,
}

impl View for Entry {
    type V = EntryV;

    open spec fn view(&self) -> EntryV {
        EntryV {
            status: self.status,
            headers: line_views(self.headers@),
            body: self.body@,
            expires_at: self.expires_at,
            vary_headers: views(self.vary_headers@),
            vary_signature: self.vary_signature@,
        }
    }
}

/// A cache key and the variants stored under it.
pub type Slot = (Seq<char>, Seq<EntryV>);

/// The slots of a store.
pub open spec fn slot_views(v: Seq<(String, Vec<Entry>)>) -> Seq<Slot> {
    v.map_values(|p: (String, Vec<Entry>)| (p.0@, views(p.1@)))
}

// ---------------------------------------------------------------------------
// Sizes
// ---------------------------------------------------------------------------

/// Bytes of header lines.
pub open spec fn lines_size(list: Seq<(Seq<char>, Seq<u8>)>) -> nat
    decreases list.len(),
{
    if list.len() == 0 {
        0
    } else {
        lines_size(list.drop_last()) + encode_utf8(list.last().0).len() + list.last().1.len()
    }
}

/// Bytes of a list of texts.
pub open spec fn texts_size(list: Seq<Seq<char>>) -> nat
    decreases list.len(),
{
    if list.len() == 0 {
        0
    } else {
        texts_size(list.drop_last()) + encode_utf8(list.last()).len()
    }
}

/// The bytes that an entry is charged for: body, headers and Vary data.
pub open spec fn entry_size(e: EntryV) -> nat {
    e.body.len() + lines_size(e.headers) + texts_size(e.vary_headers) + encode_utf8(
        e.vary_signature,
    ).len()
}

/// The bytes of a list of variants.
pub open spec fn variants_size(vs: Seq<EntryV>) -> nat
    decreases vs.len(),
{
    if vs.len() == 0 {
        0
    } else {
        variants_size(vs.drop_last()) + entry_size(vs.last())
    }
}

/// The bytes of a whole store.
pub open spec fn slots_size(slots: Seq<Slot>) -> nat
    decreases slots.len(),
{
    if slots.len() == 0 {
        0
    } else {
        slots_size(slots.drop_last()) + variants_size(slots.last().1)
    }
}

/// The number of entries in a store.
pub open spec fn slots_count(slots: Seq<Slot>) -> nat
    decreases slots.len(),
{
    if slots.len() == 0 {
        0
    } else {
        slots_count(slots.drop_last()) + slots.last().1.len()
    }
}

proof fn lemma_variants_push(vs: Seq<EntryV>, e: EntryV)
    ensures
        variants_size(vs.push(e)) == variants_size(vs) + entry_size(e),
{
    assert(vs.push(e).drop_last() =~= vs);
}

proof fn lemma_one_size(e: EntryV)
    ensures
        variants_size(seq![e]) == entry_size(e),
{
    let none = Seq::<EntryV>::empty();
    lemma_variants_push(none, e);
    assert(none.push(e) =~= seq![e]);
}

pub proof fn lemma_variants_remove(vs: Seq<EntryV>, j: int)
    requires
        0 <= j < vs.len(),
    ensures
        variants_size(vs) == variants_size(vs.remove(j)) + entry_size(vs[j]),
    decreases vs.len(),
{
    if j == vs.len() - 1 {
        assert(vs.remove(j) =~= vs.drop_last());
    } else {
        lemma_variants_remove(vs.drop_last(), j);
        assert(vs.remove(j).drop_last() =~= vs.drop_last().remove(j));
        assert(vs.remove(j).last() == vs.last());
    }
}

pub proof fn lemma_slots_update(slots: Seq<Slot>, i: int, s: Slot)
    requires
        0 <= i < slots.len(),
    ensures
        slots_size(slots.update(i, s)) == slots_size(slots) - variants_size(slots[i].1)
            + variants_size(s.1),
        slots_count(slots.update(i, s)) == slots_count(slots) - slots[i].1.len() + s.1.len(),
        variants_size(slots[i].1) <= slots_size(slots),
        slots[i].1.len() <= slots_count(slots),
    decreases slots.len(),
{
    let t = slots.update(i, s);
    if i == slots.len() - 1 {
        assert(t.drop_last() =~= slots.drop_last());
    } else {
        lemma_slots_update(slots.drop_last(), i, s);
        assert(t.drop_last() =~= slots.drop_last().update(i, s));
    }
}

pub proof fn lemma_slots_remove(slots: Seq<Slot>, i: int)
    requires
        0 <= i < slots.len(),
    ensures
        slots_size(slots.remove(i)) == slots_size(slots) - variants_size(slots[i].1),
        slots_count(slots.remove(i)) == slots_count(slots) - slots[i].1.len(),
    decreases slots.len(),
{
    if i == slots.len() - 1 {
        assert(slots.remove(i) =~= slots.drop_last());
    } else {
        lemma_slots_remove(slots.drop_last(), i);
        assert(slots.remove(i).drop_last() =~= slots.drop_last().remove(i));
        assert(slots.remove(i).last() == slots.last());
    }
}

proof fn lemma_slots_push(slots: Seq<Slot>, s: Slot)
    ensures
        slots_size(slots.push(s)) == slots_size(slots) + variants_size(s.1),
        slots_count(slots.push(s)) == slots_count(slots) + s.1.len(),
{
    assert(slots.push(s).drop_last() =~= slots);
}

fn add_size(a: Option<usize>, b: usize) -> (r: Option<usize>)
    ensures
        match (a, r) {
            (Some(x), Some(y)) => y == x + b,
            (Some(x), None) => x + b > usize::MAX,
            (None, _) => r is None,
        },
{
    match a {
        Some(x) => x.checked_add(b),
        None => None,
    }
}

/// A running size that is still exact, or known to be too large for a `usize`.
spec fn counts(r: Option<usize>, n: nat) -> bool {
    match r {
        Some(x) => x == n,
        None => n > usize::MAX,
    }
}

/// The number of bytes of a text.
fn byte_len(s: &str) -> (n: usize)
    ensures
        n == encode_utf8(s@).len(),
{
    s.as_bytes().len()
}

/// The bytes that an entry is charged for; `None` when they exceed the address
/// space.
fn entry_bytes(e: &Entry) -> (r: Option<usize>)
    ensures
        match r {
            Some(n) => n == entry_size(e@),
            None => entry_size(e@) > usize::MAX,
        },
{
    let ghost lines = e@.headers;
    let ghost names = e@.vary_headers;
    let mut n: Option<usize> = Some(e.body.len());
    let mut i: usize = 0;
    assert(lines.take(0) =~= seq![]);
    while i < e.headers.len()
        invariant
            i <= e.headers@.len(),
            lines == line_views(e.headers@),
            counts(n, (e.body@.len() + lines_size(lines.take(i as int))) as nat),
        decreases e.headers@.len() - i,
    {
        n = add_size(n, byte_len(e.headers[i].0.as_str()));
        n = add_size(n, e.headers[i].1.len());
        i = i + 1;
        assert(lines.take(i as int).drop_last() == lines.take(i - 1));
        assert(lines.take(i as int).last() == (e.headers@[i - 1].0@, e.headers@[i - 1].1@));
    }
    assert(lines.take(i as int) == lines);
    let mut k: usize = 0;
    assert(names.take(0) =~= seq![]);
    while k < e.vary_headers.len()
        invariant
            k <= e.vary_headers@.len(),
            names == views(e.vary_headers@),
            counts(n, (e.body@.len() + lines_size(lines) + texts_size(names.take(k as int))) as nat),
        decreases e.vary_headers@.len() - k,
    {
        n = add_size(n, byte_len(e.vary_headers[k].as_str()));
        k = k + 1;
        assert(names.take(k as int).drop_last() == names.take(k - 1));
        assert(names.take(k as int).last() == e.vary_headers@[k - 1]@);
    }
    assert(names.take(k as int) == names);
    add_size(n, byte_len(e.vary_signature.as_str()))
}

// ---------------------------------------------------------------------------
// Vary
// ---------------------------------------------------------------------------

/// The signature of a request over the given header names: `name=value` and a
/// NUL for each, in order. A missing or unreadable header counts as empty.
pub open spec fn signature_of(
    req: Map<Seq<char>, Seq<Seq<u8>>>,
    names: Seq<Seq<char>>,
) -> Seq<char>
    decreases names.len(),
{
    if names.len() == 0 {
        seq![]
    } else {
        signature_of(req, names.drop_last()) + names.last() + "="@ + or_empty(
            header_text(req, names.last()),
        ) + "\0"@
    }
}

/// Build a stable "vary signature" for `req_headers` over `vary_names`.
/// Each pair is `<name>=<value>` joined by `\0`. Order matches the input
/// order so the same request always renders the same signature.
pub fn build_signature(req_headers: &hyper::HeaderMap, vary_names: &Vec<String>) -> (r: String)
    ensures
        r@ == signature_of(header_map(*req_headers), views(vary_names@)),
{
    let ghost names = views(vary_names@);
    let ghost req = header_map(*req_headers);
    let mut out = String::new();
    let mut i: usize = 0;
    assert(names.take(0) =~= seq![]);
    while i < vary_names.len()
        invariant
            i <= vary_names@.len(),
            names == views(vary_names@),
            req == header_map(*req_headers),
            out@ == signature_of(req, names.take(i as int)),
        decreases vary_names@.len() - i,
    {
        let name = vary_names[i].as_str();
        let ghost done = out@;
        out.append(name);
        out.append("=");
        match get_text(req_headers, name) {
            Some(v) => out.append(v.as_str()),
            None => {
                assert(out@ + Seq::<char>::empty() =~= out@);
            },
        }
        out.append("\0");
        i = i + 1;
        assert(names.take(i as int).drop_last() == names.take(i - 1));
        assert(names.take(i as int).last() == name@);
    }
    assert(names.take(i as int) == names);
    out
}

/// The non-empty tokens of a comma-separated list, trimmed and in lower case.
pub open spec fn tokens_in(parts: Seq<Seq<char>>) -> Seq<Seq<char>>
    decreases parts.len(),
{
    if parts.len() == 0 {
        seq![]
    } else {
        let t = lower(trimmed(parts.last()));
        let before = tokens_in(parts.drop_last());
        if t.len() > 0 {
            before.push(t)
        } else {
            before
        }
    }
}

/// The header names that the `Vary` lines of a response list.
pub open spec fn vary_names(lines: Seq<Seq<u8>>) -> Seq<Seq<char>>
    decreases lines.len(),
{
    if lines.len() == 0 {
        seq![]
    } else {
        vary_names(lines.drop_last()) + tokens_in(split_at(readable(lines.last()), ','))
    }
}

fn push_tokens(out: &mut Vec<String>, s: &str)
    ensures
        views(final(out)@) == views(old(out)@) + tokens_in(split_at(s@, ',')),
{
    let parts = split(s, ',');
    let ghost all = views(parts@);
    let ghost start = views(out@);
    let mut i: usize = 0;
    assert(all.take(0) =~= seq![]);
    assert(start + tokens_in(all.take(0)) =~= start);
    while i < parts.len()
        invariant
            i <= parts@.len(),
            all == views(parts@),
            views(out@) == start + tokens_in(all.take(i as int)),
        decreases parts@.len() - i,
    {
        let t = to_lower(trim(parts[i].as_str()));
        let ghost before = out@;
        i = i + 1;
        assert(all.take(i as int).drop_last() == all.take(i - 1));
        assert(all.take(i as int).last() == parts@[i - 1]@);
        if !t.as_str().is_empty() {
            out.push(t);
            proof {
                lemma_views_push(before, t);
                assert(views(out@) =~= start + tokens_in(all.take(i as int)));
            }
        }
    }
    assert(all.take(i as int) == all);
}

/// Extract the `Vary` header(s) into a normalized lowercase list of
/// header names. `Vary: *` is caught by [`decide_caching`].
pub fn parse_vary(headers: &hyper::HeaderMap) -> (r: Vec<String>)
    ensures
        views(r@) == vary_names(header_values(header_map(*headers), "vary"@)),
{
    let lines = get_values(headers, "vary");
    let ghost all = value_views(lines@);
    let mut out: Vec<String> = Vec::new();
    let mut i: usize = 0;
    assert(all.take(0) =~= seq![]);
    assert(views(out@) =~= seq![]);
    while i < lines.len()
        invariant
            i <= lines@.len(),
            all == value_views(lines@),
            views(out@) == vary_names(all.take(i as int)),
        decreases lines@.len() - i,
    {
        let line = readable_text(&lines[i]);
        push_tokens(&mut out, line.as_str());
        i = i + 1;
        assert(all.take(i as int).drop_last() == all.take(i - 1));
        assert(all.take(i as int).last() == lines@[i - 1]@);
    }
    assert(all.take(i as int) == all);
    out
}

// ---------------------------------------------------------------------------
// What may be cached
// ---------------------------------------------------------------------------

#[derive(Debug, PartialEq, Eq)]
pub enum CacheDecision {
    Store(Duration),
    Bypass(&'static str),
}

/// Model of a [`CacheDecision`].
pub enum CacheDecisionV {
    Store(Duration),
    Bypass(Seq<char>),
}

impl View for CacheDecision {
    type V = CacheDecisionV;

    open spec fn view(&self) -> CacheDecisionV {
        match self {
            CacheDecision::Store(d) => CacheDecisionV::Store(*d),
            CacheDecision::Bypass(s) => CacheDecisionV::Bypass(s@),
        }
    }
}

/// One of the directives that forbid caching.
pub open spec fn forbids(token: Seq<char>) -> bool {
    token == "no-store"@ || token == "private"@ || token == "no-cache"@
}

/// A `Cache-Control` line that forbids caching.
pub open spec fn forbidden(cc: Seq<char>) -> bool {
    exists|i: int|
        0 <= i < split_at(lower(cc), ',').len() && forbids(
            trimmed(#[trigger] split_at(lower(cc), ',')[i]),
        )
}

/// Whether any of the `Cache-Control` lines forbids caching.
pub open spec fn any_forbids(lines: Seq<Seq<u8>>) -> bool {
    exists|i: int| 0 <= i < lines.len() && forbidden(readable(#[trigger] lines[i]))
}

/// The time that the rules grant a status: the last rule that names the status
/// or, with an empty list, any status.
pub open spec fn ttl_for(rules: Seq<(Seq<u16>, Duration)>, status: u16) -> Option<Duration>
    decreases rules.len(),
{
    if rules.len() == 0 {
        None
    } else if rules.last().0.len() == 0 || rules.last().0.contains(status) {
        Some(rules.last().1)
    } else {
        ttl_for(rules.drop_last(), status)
    }
}

/// Whether, and for how long, a response may be cached.
pub open spec fn decision(
    method: Seq<char>,
    headers: Map<Seq<char>, Seq<Seq<u8>>>,
    status: u16,
    body_len: int,
    rules: Seq<(Seq<u16>, Duration)>,
) -> CacheDecisionV {
    if method != "GET"@ {
        CacheDecisionV::Bypass("method not GET"@)
    } else if header_value(headers, "set-cookie"@) is Some {
        CacheDecisionV::Bypass("response has Set-Cookie"@)
    } else if vary_names(header_values(headers, "vary"@)).contains("*"@) {
        CacheDecisionV::Bypass("response has Vary: *"@)
    } else if any_forbids(header_values(headers, "cache-control"@)) {
        CacheDecisionV::Bypass("response Cache-Control disallows caching"@)
    } else if body_len > MAX_ENTRY_BYTES {
        CacheDecisionV::Bypass("body exceeds per-entry size limit"@)
    } else {
        match ttl_for(rules, status) {
            Some(d) => CacheDecisionV::Store(d),
            None => CacheDecisionV::Bypass("no proxy_cache_valid rule matched"@),
        }
    }
}

fn cc_forbids(cc: &str) -> (r: bool)
    ensures
        r == forbidden(cc@),
{
    let low = to_lower(cc);
    let parts = split(low.as_str(), ',');
    let ghost all = views(parts@);
    let mut i: usize = 0;
    while i < parts.len()
        invariant
            i <= parts@.len(),
            all == views(parts@),
            all == split_at(lower(cc@), ','),
            forall|k: int| 0 <= k < i ==> !forbids(trimmed(#[trigger] all[k])),
        decreases parts@.len() - i,
    {
        let t = trim(parts[i].as_str());
        assert(all[i as int] == parts@[i as int]@);
        if same(t, "no-store") || same(t, "private") || same(t, "no-cache") {
            assert(forbids(trimmed(split_at(lower(cc@), ',')[i as int])));
            return true;
        }
        i = i + 1;
    }
    false
}

fn lines_forbid(lines: &Vec<Vec<u8>>) -> (r: bool)
    ensures
        r == any_forbids(value_views(lines@)),
{
    let ghost all = value_views(lines@);
    let mut i: usize = 0;
    while i < lines.len()
        invariant
            i <= lines@.len(),
            all == value_views(lines@),
            forall|k: int| 0 <= k < i ==> !forbidden(readable(#[trigger] all[k])),
        decreases lines@.len() - i,
    {
        let line = readable_text(&lines[i]);
        assert(all[i as int] == lines@[i as int]@);
        if cc_forbids(line.as_str()) {
            return true;
        }
        i = i + 1;
    }
    false
}

fn has_star(names: &Vec<String>) -> (r: bool)
    ensures
        r == views(names@).contains("*"@),
{
    let ghost all = views(names@);
    let mut i: usize = 0;
    while i < names.len()
        invariant
            i <= names@.len(),
            all == views(names@),
            forall|k: int| 0 <= k < i ==> all[k] != "*"@,
        decreases names@.len() - i,
    {
        if same(names[i].as_str(), "*") {
            assert(all[i as int] == "*"@);
            return true;
        }
        i = i + 1;
    }
    false
}

fn lists_status(codes: &Vec<u16>, status: u16) -> (r: bool)
    ensures
        r == codes@.contains(status),
{
    let mut i: usize = 0;
    while i < codes.len()
        invariant
            i <= codes@.len(),
            forall|k: int| 0 <= k < i ==> codes@[k] != status,
        decreases codes@.len() - i,
    {
        if codes[i] == status {
            assert(codes@[i as int] == status);
            return true;
        }
        i = i + 1;
    }
    false
}

/// Decide whether a response is cacheable.
pub fn decide_caching(
    method: &str,
    headers: &hyper::HeaderMap,
    status: u16,
    body_len: usize,
    valid_rules: &Vec<(Vec<u16>, Duration)>,
) -> (r: CacheDecision)
    ensures
        r@ == decision(
            method@,
            header_map(*headers),
            status,
            body_len as int,
            views(valid_rules@),
        ),
{
    if !same(method, "GET") {
        return CacheDecision::Bypass("method not GET");
    }
    if get_value(headers, "set-cookie").is_some() {
        return CacheDecision::Bypass("response has Set-Cookie");
    }
    // Vary: * — RFC 9111 says treat as uncacheable.
    let vary = parse_vary(headers);
    if has_star(&vary) {
        return CacheDecision::Bypass("response has Vary: *");
    }
    if lines_forbid(&get_values(headers, "cache-control")) {
        return CacheDecision::Bypass("response Cache-Control disallows caching");
    }
    if body_len > MAX_ENTRY_BYTES {
        return CacheDecision::Bypass("body exceeds per-entry size limit");
    }
    let ghost rules = views(valid_rules@);
    let mut n: usize = valid_rules.len();
    assert(rules.take(n as int) == rules);
    while n > 0
        invariant
            n <= valid_rules@.len(),
            rules == views(valid_rules@),
            ttl_for(rules.take(n as int), status) == ttl_for(rules, status),
            method@ == "GET"@,
            header_value(header_map(*headers), "set-cookie"@) is None,
            !vary_names(header_values(header_map(*headers), "vary"@)).contains("*"@),
            !any_forbids(header_values(header_map(*headers), "cache-control"@)),
            body_len <= MAX_ENTRY_BYTES,
        decreases n,
    {
        let ghost now = rules.take(n as int);
        assert(now.last() == valid_rules@[n - 1]@);
        assert(now.drop_last() == rules.take(n - 1));
        if valid_rules[n - 1].0.len() == 0 || lists_status(&valid_rules[n - 1].0, status) {
            return CacheDecision::Store(valid_rules[n - 1].1);
        }
        n = n - 1;
    }
    CacheDecision::Bypass("no proxy_cache_valid rule matched")
}

// ---------------------------------------------------------------------------
// The store
// ---------------------------------------------------------------------------

/// A keyed store of responses, bounded by the bytes it may hold.
#[derive(Debug)]
pub struct CacheStore {
    pub name: String,
    pub max_bytes: usize,
    /// Each key once, with its variants. Each variant is one response
    /// produced for a particular Vary-axis tuple.
    pub entries: Vec<(String, Vec<Entry>)>,
    /// The bytes of all entries.
    pub total_bytes: usize,
    /// The clock that `expires_at` refers to.
    pub clock: Clock,
}

/// Whether two states are of one store: its name, its limit and its clock stay.
pub open spec fn same_store(before: CacheStore, after: CacheStore) -> bool {
    &&& after.name@ == before.name@
    &&& after.max_bytes == before.max_bytes
    &&& after.clock == before.clock
}

/// Position of the slot for `key`, or the number of slots.
pub open spec fn slot_index(slots: Seq<Slot>, key: Seq<char>) -> int
    decreases slots.len(),
{
    if slots.len() == 0 || slots[0].0 == key {
        0
    } else {
        1 + slot_index(slots.skip(1), key)
    }
}

/// Position of the variant with the given signature, or the number of
/// variants.
pub open spec fn signature_index(vs: Seq<EntryV>, signature: Seq<char>) -> int
    decreases vs.len(),
{
    if vs.len() == 0 || vs[0].vary_signature == signature {
        0
    } else {
        1 + signature_index(vs.skip(1), signature)
    }
}

/// The variants that have not expired at `now`.
pub open spec fn fresh(vs: Seq<EntryV>, now: u64) -> Seq<EntryV>
    decreases vs.len(),
{
    if vs.len() == 0 {
        seq![]
    } else if vs[0].expires_at <= now {
        fresh(vs.skip(1), now)
    } else {
        seq![vs[0]] + fresh(vs.skip(1), now)
    }
}

/// Whether a variant was stored for a request like this one.
pub open spec fn fits(e: EntryV, req: Map<Seq<char>, Seq<Seq<u8>>>) -> bool {
    signature_of(req, e.vary_headers) == e.vary_signature
}

/// The first variant that fits a request.
pub open spec fn first_fit(vs: Seq<EntryV>, req: Map<Seq<char>, Seq<Seq<u8>>>) -> Option<EntryV>
    decreases vs.len(),
{
    if vs.len() == 0 {
        None
    } else if fits(vs[0], req) {
        Some(vs[0])
    } else {
        first_fit(vs.skip(1), req)
    }
}

/// What a lookup at `now` finds.
pub open spec fn lookup(
    slots: Seq<Slot>,
    key: Seq<char>,
    req: Map<Seq<char>, Seq<Seq<u8>>>,
    now: u64,
) -> Option<EntryV> {
    let i = slot_index(slots, key);
    if i < slots.len() {
        first_fit(fresh(slots[i].1, now), req)
    } else {
        None
    }
}

/// The slots after a lookup: the stale variants of the key are gone, and with
/// the last of them the key.
pub open spec fn after_lookup(slots: Seq<Slot>, key: Seq<char>, now: u64) -> Seq<Slot> {
    let i = slot_index(slots, key);
    if i < slots.len() {
        let vs = fresh(slots[i].1, now);
        if vs.len() == 0 {
            slots.remove(i)
        } else {
            slots.update(i, (slots[i].0, vs))
        }
    } else {
        slots
    }
}

/// The first among the first `n` variants that expires soonest.
pub open spec fn soonest(vs: Seq<EntryV>, n: int) -> int
    decreases n,
{
    if n <= 1 {
        0
    } else {
        let best = soonest(vs, n - 1);
        if vs[n - 1].expires_at < vs[best].expires_at {
            n - 1
        } else {
            best
        }
    }
}

/// When the first variant of a slot expires.
pub open spec fn deadline_of(s: Slot) -> u64 {
    s.1[soonest(s.1, s.1.len() as int)].expires_at
}

/// The first among the first `n` slots that holds the entry which expires
/// soonest.
pub open spec fn soonest_slot(slots: Seq<Slot>, n: int) -> int
    decreases n,
{
    if n <= 1 {
        0
    } else {
        let best = soonest_slot(slots, n - 1);
        if deadline_of(slots[n - 1]) < deadline_of(slots[best]) {
            n - 1
        } else {
            best
        }
    }
}

/// The slots without the entry that expires soonest.
pub open spec fn without_soonest(slots: Seq<Slot>) -> Seq<Slot> {
    let i = soonest_slot(slots, slots.len() as int);
    let vs = slots[i].1;
    if vs.len() <= 1 {
        slots.remove(i)
    } else {
        slots.update(i, (slots[i].0, vs.remove(soonest(vs, vs.len() as int))))
    }
}

pub proof fn lemma_soonest_bound(vs: Seq<EntryV>, n: int)
    requires
        n >= 1,
    ensures
        0 <= soonest(vs, n) < n,
    decreases n,
{
    if n > 1 {
        lemma_soonest_bound(vs, n - 1);
    }
}

pub proof fn lemma_soonest_slot_bound(slots: Seq<Slot>, n: int)
    requires
        n >= 1,
    ensures
        0 <= soonest_slot(slots, n) < n,
    decreases n,
{
    if n > 1 {
        lemma_soonest_slot_bound(slots, n - 1);
    }
}

pub proof fn lemma_drop_shrinks(slots: Seq<Slot>)
    requires
        slots.len() > 0,
    ensures
        slots_count(without_soonest(slots)) + without_soonest(slots).len() < slots_count(slots)
            + slots.len(),
        slots_size(without_soonest(slots)) <= slots_size(slots),
{
    lemma_soonest_slot_bound(slots, slots.len() as int);
    let i = soonest_slot(slots, slots.len() as int);
    let vs = slots[i].1;
    lemma_slots_remove(slots, i);
    if vs.len() > 1 {
        lemma_soonest_bound(vs, vs.len() as int);
        let j = soonest(vs, vs.len() as int);
        lemma_variants_remove(vs, j);
        lemma_slots_update(slots, i, (slots[i].0, vs.remove(j)));
    }
}

/// The slots after evicting, soonest first, until they hold at most `room`
/// bytes.
pub open spec fn evicted(slots: Seq<Slot>, room: int) -> Seq<Slot>
    decreases slots_count(slots) + slots.len(),
    via evicted_shrinks
{
    if slots.len() == 0 || slots_size(slots) <= room {
        slots
    } else {
        evicted(without_soonest(slots), room)
    }
}

#[via_fn]
proof fn evicted_shrinks(slots: Seq<Slot>, room: int) {
    if slots.len() > 0 {
        lemma_drop_shrinks(slots);
    }
}

/// The slots with an entry added. It replaces the variant with the same
/// signature.
pub open spec fn added(slots: Seq<Slot>, key: Seq<char>, e: EntryV) -> Seq<Slot> {
    let i = slot_index(slots, key);
    if i < slots.len() {
        slots.update(i, (slots[i].0, replaced_variant(slots[i].1, e)))
    } else {
        slots.push((key, seq![e]))
    }
}

/// The variants with `e` as the last and only one of its signature.
pub open spec fn replaced_variant(vs: Seq<EntryV>, e: EntryV) -> Seq<EntryV> {
    let p = signature_index(vs, e.vary_signature);
    if p < vs.len() {
        vs.remove(p).push(e)
    } else {
        vs.push(e)
    }
}

/// The slots after storing an entry in a store of `max` bytes. An entry that
/// does not fit at all is not stored.
pub open spec fn after_put(slots: Seq<Slot>, key: Seq<char>, e: EntryV, max: usize) -> Seq<Slot> {
    if entry_size(e) > max {
        slots
    } else {
        added(evicted(slots, max - entry_size(e)), key, e)
    }
}

/// Each key stands once, and has at least one variant, each with a signature
/// of its own.
pub open spec fn well_formed(slots: Seq<Slot>) -> bool {
    &&& forall|i: int, j: int|
        0 <= i < j < slots.len() ==> (#[trigger] slots[i]).0 != (#[trigger] slots[j]).0
    &&& forall|i: int| 0 <= i < slots.len() ==> (#[trigger] slots[i]).1.len() > 0
    &&& forall|i: int| 0 <= i < slots.len() ==> distinct_variants((#[trigger] slots[i]).1)
}

pub open spec fn distinct_variants(vs: Seq<EntryV>) -> bool {
    forall|i: int, j: int|
        0 <= i < j < vs.len() ==> (#[trigger] vs[i]).vary_signature != (
        #[trigger] vs[j]).vary_signature
}

/// The metrics after a lookup that dropped `bytes` bytes of stale variants.
pub open spec fn lookup_metrics(m: Metrics, bytes: int, hit: bool) -> Metrics {
    let n = Metrics { cache_evicted_bytes: m.cache_evicted_bytes.wrapping_add(bytes as u64), ..m };
    if hit {
        Metrics { cache_hits: m.cache_hits.wrapping_add(1), ..n }
    } else {
        Metrics { cache_misses: m.cache_misses.wrapping_add(1), ..n }
    }
}

/// The metrics after an entry was stored and `bytes` bytes were evicted for it.
pub open spec fn put_metrics(m: Metrics, bytes: int, total: int, count: int) -> Metrics {
    Metrics {
        cache_evicted_bytes: wrapped(m.cache_evicted_bytes, bytes),
        cache_bytes: total as u64,
        cache_entries: count as u64,
        ..m
    }
}

proof fn lemma_slot_index(slots: Seq<Slot>, key: Seq<char>, i: int)
    requires
        0 <= i <= slots.len(),
        forall|k: int| 0 <= k < i ==> (#[trigger] slots[k]).0 != key,
        i == slots.len() || slots[i].0 == key,
    ensures
        slot_index(slots, key) == i,
    decreases i,
{
    if i > 0 {
        assert(slots[0].0 != key);
        assert forall|k: int| 0 <= k < i - 1 implies (#[trigger] slots.skip(1)[k]).0 != key by {
            assert(slots.skip(1)[k] == slots[k + 1]);
        }
        lemma_slot_index(slots.skip(1), key, i - 1);
    }
}

pub proof fn lemma_slot_index_is(slots: Seq<Slot>, key: Seq<char>)
    ensures
        0 <= slot_index(slots, key) <= slots.len(),
        slot_index(slots, key) < slots.len() ==> slots[slot_index(slots, key)].0 == key,
        forall|k: int| 0 <= k < slot_index(slots, key) ==> (#[trigger] slots[k]).0 != key,
    decreases slots.len(),
{
    if slots.len() > 0 && slots[0].0 != key {
        lemma_slot_index_is(slots.skip(1), key);
        assert forall|k: int| 0 <= k < slot_index(slots, key) implies (#[trigger] slots[k]).0
            != key by {
            if k > 0 {
                assert(slots[k] == slots.skip(1)[k - 1]);
            }
        }
    }
}

proof fn lemma_signature_index(vs: Seq<EntryV>, sig: Seq<char>, i: int)
    requires
        0 <= i <= vs.len(),
        forall|k: int| 0 <= k < i ==> (#[trigger] vs[k]).vary_signature != sig,
        i == vs.len() || vs[i].vary_signature == sig,
    ensures
        signature_index(vs, sig) == i,
    decreases i,
{
    if i > 0 {
        assert(vs[0].vary_signature != sig);
        assert forall|k: int| 0 <= k < i - 1 implies (#[trigger] vs.skip(1)[k]).vary_signature
            != sig by {
            assert(vs.skip(1)[k] == vs[k + 1]);
        }
        lemma_signature_index(vs.skip(1), sig, i - 1);
    }
}

proof fn lemma_signature_index_is(vs: Seq<EntryV>, sig: Seq<char>)
    ensures
        0 <= signature_index(vs, sig) <= vs.len(),
        signature_index(vs, sig) < vs.len() ==> vs[signature_index(vs, sig)].vary_signature == sig,
        forall|k: int|
            0 <= k < signature_index(vs, sig) ==> (#[trigger] vs[k]).vary_signature != sig,
    decreases vs.len(),
{
    if vs.len() > 0 && vs[0].vary_signature != sig {
        lemma_signature_index_is(vs.skip(1), sig);
        assert forall|k: int| 0 <= k < signature_index(vs, sig) implies (
        #[trigger] vs[k]).vary_signature != sig by {
            if k > 0 {
                assert(vs[k] == vs.skip(1)[k - 1]);
            }
        }
    }
}

/// The fresh variants are variants, keep their order and weigh no more.
pub proof fn lemma_fresh(vs: Seq<EntryV>, now: u64)
    ensures
        fresh(vs, now).len() <= vs.len(),
        variants_size(fresh(vs, now)) <= variants_size(vs),
        forall|k: int|
            0 <= k < fresh(vs, now).len() ==> (#[trigger] fresh(vs, now)[k]).expires_at > now
                && vs.contains(fresh(vs, now)[k]),
        distinct_variants(vs) ==> distinct_variants(fresh(vs, now)),
    decreases vs.len(),
{
    if vs.len() > 0 {
        let rest = vs.skip(1);
        let f = fresh(rest, now);
        lemma_fresh(rest, now);
        lemma_variants_remove(vs, 0);
        assert(vs.remove(0) =~= rest);
        assert forall|e: EntryV| rest.contains(e) implies vs.contains(e) by {
            let j = choose|j: int| 0 <= j < rest.len() && rest[j] == e;
            assert(vs[j + 1] == e);
        }
        assert(vs.contains(vs[0]));
        if vs[0].expires_at > now {
            let all = seq![vs[0]] + f;
            lemma_variants_remove(all, 0);
            assert(all.remove(0) =~= f);
            assert forall|k: int| 0 <= k < all.len() implies (#[trigger] all[k]).expires_at > now
                && vs.contains(all[k]) by {
                if k > 0 {
                    assert(all[k] == f[k - 1]);
                }
            }
            if distinct_variants(vs) {
                assert forall|i: int, j: int| 0 <= i < j < rest.len() implies (
                #[trigger] rest[i]).vary_signature != (#[trigger] rest[j]).vary_signature by {
                    assert(rest[i] == vs[i + 1] && rest[j] == vs[j + 1]);
                }
                assert forall|i: int, j: int| 0 <= i < j < all.len() implies (
                #[trigger] all[i]).vary_signature != (#[trigger] all[j]).vary_signature by {
                    assert(all[j] == f[j - 1]);
                    if i > 0 {
                        assert(all[i] == f[i - 1]);
                    } else {
                        assert(rest.contains(f[j - 1]));
                        let m = choose|m: int| 0 <= m < rest.len() && rest[m] == f[j - 1];
                        assert(vs[m + 1] == rest[m]);
                    }
                }
            }
        } else if distinct_variants(vs) {
            assert forall|i: int, j: int| 0 <= i < j < rest.len() implies (
            #[trigger] rest[i]).vary_signature != (#[trigger] rest[j]).vary_signature by {
                assert(rest[i] == vs[i + 1] && rest[j] == vs[j + 1]);
            }
        }
    }
}

proof fn lemma_remove_wf(slots: Seq<Slot>, i: int)
    requires
        well_formed(slots),
        0 <= i < slots.len(),
    ensures
        well_formed(slots.remove(i)),
{
    let t = slots.remove(i);
    assert forall|a: int, b: int| 0 <= a < b < t.len() implies (#[trigger] t[a]).0 != (
    #[trigger] t[b]).0 by {
        let x = if a < i {
            a
        } else {
            a + 1
        };
        let y = if b < i {
            b
        } else {
            b + 1
        };
        assert(t[a] == slots[x] && t[b] == slots[y]);
    }
    assert forall|a: int| 0 <= a < t.len() implies (#[trigger] t[a]).1.len() > 0
        && distinct_variants(t[a].1) by {
        let x = if a < i {
            a
        } else {
            a + 1
        };
        assert(t[a] == slots[x]);
    }
}

proof fn lemma_update_wf(slots: Seq<Slot>, i: int, vs: Seq<EntryV>)
    requires
        well_formed(slots),
        0 <= i < slots.len(),
        vs.len() > 0,
        distinct_variants(vs),
    ensures
        well_formed(slots.update(i, (slots[i].0, vs))),
{
    let t = slots.update(i, (slots[i].0, vs));
    assert forall|a: int, b: int| 0 <= a < b < t.len() implies (#[trigger] t[a]).0 != (
    #[trigger] t[b]).0 by {
        assert(t[a].0 == slots[a].0 && t[b].0 == slots[b].0);
    }
    assert forall|a: int| 0 <= a < t.len() implies (#[trigger] t[a]).1.len() > 0
        && distinct_variants(t[a].1) by {
        assert(a == i || t[a] == slots[a]);
    }
}

proof fn lemma_variant_remove_distinct(vs: Seq<EntryV>, j: int)
    requires
        distinct_variants(vs),
        0 <= j < vs.len(),
    ensures
        distinct_variants(vs.remove(j)),
{
    let t = vs.remove(j);
    assert forall|a: int, b: int| 0 <= a < b < t.len() implies (#[trigger] t[a]).vary_signature != (
    #[trigger] t[b]).vary_signature by {
        let x = if a < j {
            a
        } else {
            a + 1
        };
        let y = if b < j {
            b
        } else {
            b + 1
        };
        assert(t[a] == vs[x] && t[b] == vs[y]);
    }
}

pub proof fn lemma_drop_wf(slots: Seq<Slot>)
    requires
        well_formed(slots),
        slots.len() > 0,
    ensures
        well_formed(without_soonest(slots)),
{
    lemma_soonest_slot_bound(slots, slots.len() as int);
    let i = soonest_slot(slots, slots.len() as int);
    let vs = slots[i].1;
    lemma_remove_wf(slots, i);
    if vs.len() > 1 {
        lemma_soonest_bound(vs, vs.len() as int);
        let j = soonest(vs, vs.len() as int);
        lemma_variant_remove_distinct(vs, j);
        lemma_update_wf(slots, i, vs.remove(j));
    }
}

proof fn lemma_added_wf(slots: Seq<Slot>, key: Seq<char>, e: EntryV)
    requires
        well_formed(slots),
    ensures
        well_formed(added(slots, key, e)),
        slots_size(added(slots, key, e)) <= slots_size(slots) + entry_size(e),
{
    lemma_slot_index_is(slots, key);
    let i = slot_index(slots, key);
    if i < slots.len() {
        let vs = slots[i].1;
        lemma_signature_index_is(vs, e.vary_signature);
        let p = signature_index(vs, e.vary_signature);
        let kept = if p < vs.len() {
            vs.remove(p)
        } else {
            vs
        };
        if p < vs.len() {
            lemma_variant_remove_distinct(vs, p);
            lemma_variants_remove(vs, p);
        }
        assert forall|a: int| 0 <= a < kept.len() implies (#[trigger] kept[a]).vary_signature
            != e.vary_signature by {
            if p < vs.len() {
                if a < p {
                    assert(kept[a] == vs[a]);
                } else {
                    assert(kept[a] == vs[a + 1]);
                    assert(vs[p].vary_signature != vs[a + 1].vary_signature);
                }
            }
        }
        let out = kept.push(e);
        lemma_variants_push(kept, e);
        assert(distinct_variants(out)) by {
            assert forall|a: int, b: int| 0 <= a < b < out.len() implies (
            #[trigger] out[a]).vary_signature != (#[trigger] out[b]).vary_signature by {
                assert(out[a] == kept[a]);
                if b < kept.len() {
                    assert(out[b] == kept[b]);
                }
            }
        }
        assert(out == replaced_variant(vs, e));
        lemma_update_wf(slots, i, out);
        lemma_slots_update(slots, i, (slots[i].0, out));
    } else {
        let one = seq![e];
        lemma_slots_push(slots, (key, one));
        lemma_one_size(e);
        let t = slots.push((key, one));
        assert forall|a: int, b: int| 0 <= a < b < t.len() implies (#[trigger] t[a]).0 != (
        #[trigger] t[b]).0 by {
            assert(t[a] == slots[a]);
            if b < slots.len() {
                assert(t[b] == slots[b]);
            }
        }
        assert forall|a: int| 0 <= a < t.len() implies (#[trigger] t[a]).1.len() > 0
            && distinct_variants(t[a].1) by {
            if a < slots.len() {
                assert(t[a] == slots[a]);
            }
        }
    }
}

impl Entry {
    /// An independent copy.
    pub fn copy(&self) -> (r: Entry)
        ensures
            r@ == self@,
    {
        let mut headers: Vec<(String, Vec<u8>)> = Vec::new();
        let mut i: usize = 0;
        while i < self.headers.len()
            invariant
                i <= self.headers@.len(),
                headers@.len() == i,
                forall|k: int|
                    0 <= k < i ==> (#[trigger] headers@[k]).0@ == self.headers@[k].0@
                        && headers@[k].1@ == self.headers@[k].1@,
            decreases self.headers@.len() - i,
        {
            let item = (self.headers[i].0.clone(), copy_bytes(&self.headers[i].1));
            headers.push(item);
            i = i + 1;
        }
        assert(line_views(headers@) =~= line_views(self.headers@));
        let mut vary: Vec<String> = Vec::new();
        let mut k: usize = 0;
        while k < self.vary_headers.len()
            invariant
                k <= self.vary_headers@.len(),
                vary@.len() == k,
                forall|j: int| 0 <= j < k ==> (#[trigger] vary@[j])@ == self.vary_headers@[j]@,
            decreases self.vary_headers@.len() - k,
        {
            vary.push(self.vary_headers[k].clone());
            k = k + 1;
        }
        assert(views(vary@) =~= views(self.vary_headers@));
        Entry {
            status: self.status,
            headers,
            body: copy_bytes(&self.body),
            expires_at: self.expires_at,
            vary_headers: vary,
            vary_signature: self.vary_signature.clone(),
        }
    }
}

/// A copy of a byte string.
pub fn copy_bytes(v: &Vec<u8>) -> (r: Vec<u8>)
    ensures
        r@ == v@,
{
    let mut r: Vec<u8> = Vec::new();
    let mut i: usize = 0;
    while i < v.len()
        invariant
            i <= v@.len(),
            r@ == v@.take(i as int),
        decreases v@.len() - i,
    {
        r.push(v[i]);
        i = i + 1;
        assert(r@ =~= v@.take(i as int));
    }
    assert(v@.take(i as int) == v@);
    r
}

/// Drops the stale variants of a list.
fn retain_fresh(vs: &mut Vec<Entry>, now: u64)
    ensures
        views(final(vs)@) == fresh(views(old(vs)@), now),
{
    let ghost whole = fresh(views(vs@), now);
    let mut j: usize = 0;
    assert(views(vs@).skip(0) == views(vs@));
    assert(views(vs@).take(0) + whole =~= whole);
    while j < vs.len()
        invariant
            j <= vs@.len(),
            views(vs@).take(j as int) + fresh(views(vs@).skip(j as int), now) == whole,
        decreases vs@.len() - j,
    {
        let ghost all = views(vs@);
        let ghost rest = all.skip(j as int);
        assert(rest[0] == vs@[j as int]@);
        if vs[j].expires_at <= now {
            let ghost before = vs@;
            vs.remove(j);
            assert(views(vs@) =~= all.remove(j as int));
            assert(views(vs@).take(j as int) =~= all.take(j as int));
            assert(views(vs@).skip(j as int) =~= rest.skip(1));
        } else {
            assert(all.skip(j + 1) == rest.skip(1));
            assert(all.take(j + 1) + fresh(rest.skip(1), now) =~= all.take(j as int) + (
            seq![rest[0]] + fresh(rest.skip(1), now)));
            j = j + 1;
        }
    }
    assert(views(vs@).skip(j as int) =~= seq![]);
    assert(views(vs@).take(j as int) + Seq::<EntryV>::empty() =~= views(vs@));
}

fn find_fit(vs: &Vec<Entry>, req: &hyper::HeaderMap) -> (r: Option<Entry>)
    ensures
        match r {
            Some(e) => first_fit(views(vs@), header_map(*req)) == Some(e@),
            None => first_fit(views(vs@), header_map(*req)) is None,
        },
{
    let ghost all = views(vs@);
    let mut i: usize = 0;
    assert(all.skip(0) == all);
    while i < vs.len()
        invariant
            i <= vs@.len(),
            all == views(vs@),
            first_fit(all.skip(i as int), header_map(*req)) == first_fit(all, header_map(*req)),
        decreases vs@.len() - i,
    {
        let ghost rest = all.skip(i as int);
        assert(rest[0] == vs@[i as int]@);
        assert(rest.skip(1) == all.skip(i + 1));
        let sig = build_signature(req, &vs[i].vary_headers);
        if same(sig.as_str(), vs[i].vary_signature.as_str()) {
            return Some(vs[i].copy());
        }
        i = i + 1;
    }
    None
}

/// The bytes of a list of variants that together fit into a `usize`.
fn variants_bytes(vs: &Vec<Entry>) -> (n: usize)
    requires
        variants_size(views(vs@)) <= usize::MAX,
    ensures
        n == variants_size(views(vs@)),
{
    let ghost all = views(vs@);
    let mut n: usize = 0;
    let mut i: usize = 0;
    assert(all.take(0) =~= seq![]);
    while i < vs.len()
        invariant
            i <= vs@.len(),
            all == views(vs@),
            variants_size(all) <= usize::MAX,
            n == variants_size(all.take(i as int)),
        decreases vs@.len() - i,
    {
        proof {
            lemma_prefix_size(all, i + 1);
            assert(all.take(i + 1).drop_last() == all.take(i as int));
            assert(all.take(i + 1).last() == vs@[i as int]@);
        }
        match entry_bytes(&vs[i]) {
            Some(b) => {
                n = n + b;
            },
            None => {},
        }
        i = i + 1;
    }
    assert(all.take(i as int) == all);
    n
}

proof fn lemma_prefix_size(vs: Seq<EntryV>, i: int)
    requires
        0 <= i <= vs.len(),
    ensures
        variants_size(vs.take(i)) <= variants_size(vs),
    decreases vs.len() - i,
{
    if i == vs.len() {
        assert(vs.take(i) == vs);
    } else {
        lemma_prefix_size(vs, i + 1);
        assert(vs.take(i + 1).drop_last() == vs.take(i));
    }
}

impl CacheStore {
    /// What the store holds.
    pub open spec fn slots(self) -> Seq<Slot> {
        slot_views(self.entries@)
    }

    /// The bytes that the store accounts for.
    pub open spec fn bytes(self) -> usize {
        self.total_bytes
    }

    /// Every key once, nothing empty, no signature twice; the accounted bytes
    /// are those of the entries and never exceed the limit.
    pub open spec fn wf(self) -> bool {
        &&& well_formed(self.slots())
        &&& self.bytes() == slots_size(self.slots())
        &&& self.bytes() <= self.max_bytes
    }

    pub fn new(name: String, max_bytes: usize) -> (s: CacheStore)
        ensures
            s.wf(),
            s.slots() == Seq::<Slot>::empty(),
            s.name@ == name@,
            s.max_bytes == max_bytes,
    {
        let s = CacheStore {
            name,
            max_bytes,
            entries: Vec::new(),
            total_bytes: 0,
            clock: Clock::start(),
        };
        assert(s.slots() =~= Seq::<Slot>::empty());
        s
    }

    /// The point that the store's clock shows.
    pub fn now(&self) -> (r: u64) {
        self.clock.now()
    }

    fn find_slot(&self, key: &str) -> (i: usize)
        ensures
            i == slot_index(self.slots(), key@),
            i <= self.entries@.len(),
    {
        let ghost all = self.slots();
        let mut i: usize = 0;
        while i < self.entries.len()
            invariant
                i <= self.entries@.len(),
                all == slot_views(self.entries@),
                forall|k: int| 0 <= k < i ==> (#[trigger] all[k]).0 != key@,
            decreases self.entries@.len() - i,
        {
            assert(all[i as int].0 == self.entries@[i as int].0@);
            if same(self.entries[i].0.as_str(), key) {
                proof {
                    lemma_slot_index(all, key@, i as int);
                }
                return i;
            }
            i = i + 1;
        }
        proof {
            lemma_slot_index(all, key@, i as int);
        }
        i
    }

    /// Look up a fresh entry matching this request. Stale variants are
    /// evicted opportunistically.
    pub fn get(&mut self, key: &str, req_headers: &hyper::HeaderMap, metrics: &mut Metrics) -> (r:
        Option<Entry>)
        requires
            old(self).wf(),
        ensures
            final(self).wf(),
            same_store(*old(self), *final(self)),
            exists|now: u64|
                #![trigger after_lookup(old(self).slots(), key@, now)]
                {
                    &&& final(self).slots() == after_lookup(old(self).slots(), key@, now)
                    &&& lookup(old(self).slots(), key@, header_map(*req_headers), now) == (match r {
                        Some(e) => Some(e@),
                        None => None,
                    })
                    &&& *final(metrics) == lookup_metrics(
                        *old(metrics),
                        old(self).bytes() - final(self).bytes(),
                        r is Some,
                    )
                },
    {
        let now = self.now();
        let r = self.get_at(key, req_headers, now, metrics);
        assert(self.slots() == after_lookup(old(self).slots(), key@, now));
        r
    }

    /// Look up at the point `now` of the store's clock.
    pub fn get_at(
        &mut self,
        key: &str,
        req_headers: &hyper::HeaderMap,
        now: u64,
        metrics: &mut Metrics,
    ) -> (r: Option<Entry>)
        requires
            old(self).wf(),
        ensures
            final(self).wf(),
            same_store(*old(self), *final(self)),
            final(self).slots() == after_lookup(old(self).slots(), key@, now),
            match r {
                Some(e) => lookup(old(self).slots(), key@, header_map(*req_headers), now) == Some(
                    e@,
                ),
                None => lookup(old(self).slots(), key@, header_map(*req_headers), now) is None,
            },
            *final(metrics) == lookup_metrics(
                *old(metrics),
                old(self).bytes() - final(self).bytes(),
                r is Some,
            ),
    {
        let ghost before = self.slots();
        let i = self.find_slot(key);
        let mut found: Option<Entry> = None;
        if i < self.entries.len() {
            let ghost vs = before[i as int].1;
            proof {
                lemma_fresh(vs, now);
                lemma_slots_remove(before, i as int);
                lemma_slots_update(before, i as int, (before[i as int].0, fresh(vs, now)));
                assert(vs == views(self.entries@[i as int].1@));
                assert(vs.len() > 0) by {
                    assert(before[i as int].1.len() > 0);
                }
                assert(distinct_variants(before[i as int].1));
            }
            let (k, mut variants) = self.entries.remove(i);
            let had: usize = variants_bytes(&variants);
            retain_fresh(&mut variants, now);
            let kept: usize = variants_bytes(&variants);
            found = find_fit(&variants, req_headers);
            let dropped: usize = had - kept;
            self.total_bytes = self.total_bytes - dropped;
            if dropped > 0 {
                record_cache_evict(metrics, dropped);
            }
            if variants.len() == 0 {
                proof {
                    assert(self.slots() =~= before.remove(i as int));
                    assert(views(variants@).len() == 0);
                    assert(variants_size(views(variants@)) == 0);
                    lemma_remove_wf(before, i as int);
                }
            } else {
                self.entries.insert(i, (k, variants));
                proof {
                    let s = (before[i as int].0, fresh(vs, now));
                    assert(self.slots() =~= before.update(i as int, s));
                    lemma_update_wf(before, i as int, fresh(vs, now));
                }
            }
        }
        if found.is_some() {
            record_cache_hit(metrics);
        } else {
            record_cache_miss(metrics);
        }
        found
    }

    /// Evict the entry that expires soonest.
    fn evict_one(&mut self, metrics: &mut Metrics)
        requires
            old(self).wf(),
            old(self).slots().len() > 0,
        ensures
            final(self).wf(),
            same_store(*old(self), *final(self)),
            final(self).slots() == without_soonest(old(self).slots()),
            final(self).bytes() <= old(self).bytes(),
            *final(metrics) == (Metrics {
                cache_evicted_bytes: old(metrics).cache_evicted_bytes.wrapping_add(
                    (old(self).bytes() - final(self).bytes()) as u64,
                ),
                ..*old(metrics)
            }),
    {
        let ghost before = self.slots();
        proof {
            lemma_drop_wf(before);
            lemma_soonest_slot_bound(before, before.len() as int);
        }
        let i = self.soonest_slot_index();
        let ghost vs = before[i as int].1;
        proof {
            assert(before[i as int].1.len() > 0);
            assert(vs == views(self.entries@[i as int].1@));
            lemma_slots_remove(before, i as int);
            lemma_soonest_bound(vs, vs.len() as int);
            lemma_variants_remove(vs, soonest(vs, vs.len() as int));
            lemma_slots_update(
                before,
                i as int,
                (before[i as int].0, vs.remove(soonest(vs, vs.len() as int))),
            );
        }
        let (k, mut variants) = self.entries.remove(i);
        let j = soonest_index(&variants);
        let removed = variants.remove(j);
        proof {
            assert(views(variants@) =~= vs.remove(j as int));
            assert(removed@ == vs[j as int]);
        }
        let bytes: usize = match entry_bytes(&removed) {
            Some(b) => b,
            None => 0,
        };
        self.total_bytes = self.total_bytes - bytes;
        if bytes > 0 {
            record_cache_evict(metrics, bytes);
        }
        if variants.len() == 0 {
            proof {
                assert(vs.len() == 1);
                assert(self.slots() =~= before.remove(i as int));
                assert(vs.remove(j as int) =~= seq![]);
            }
        } else {
            self.entries.insert(i, (k, variants));
            proof {
                assert(self.slots() =~= before.update(
                    i as int,
                    (before[i as int].0, vs.remove(j as int)),
                ));
            }
        }
    }

    fn soonest_slot_index(&self) -> (i: usize)
        requires
            self.wf(),
            self.slots().len() > 0,
        ensures
            i < self.entries@.len(),
            i == soonest_slot(self.slots(), self.slots().len() as int),
    {
        let ghost all = self.slots();
        let mut best: usize = 0;
        let mut i: usize = 1;
        while i < self.entries.len()
            invariant
                1 <= i <= self.entries@.len(),
                all == self.slots(),
                all == slot_views(self.entries@),
                well_formed(all),
                best < i,
                best == soonest_slot(all, i as int),
            decreases self.entries@.len() - i,
        {
            assert(all[i as int].1 == views(self.entries@[i as int].1@));
            assert(all[best as int].1 == views(self.entries@[best as int].1@));
            assert(all[i as int].1.len() > 0 && all[best as int].1.len() > 0);
            let a = soonest_index(&self.entries[i].1);
            let b = soonest_index(&self.entries[best].1);
            assert(all[i as int].1[a as int] == self.entries@[i as int].1@[a as int]@);
            assert(all[best as int].1[b as int] == self.entries@[best as int].1@[b as int]@);
            if self.entries[i].1[a].expires_at < self.entries[best].1[b].expires_at {
                best = i;
            }
            i = i + 1;
        }
        best
    }

    fn count(&self) -> (n: u64)
        ensures
            slots_count(self.slots()) <= u64::MAX ==> n == slots_count(self.slots()),
    {
        let ghost all = self.slots();
        let mut n: u64 = 0;
        let mut i: usize = 0;
        assert(all.take(0) =~= seq![]);
        while i < self.entries.len()
            invariant
                i <= self.entries@.len(),
                all == slot_views(self.entries@),
                slots_count(all) <= u64::MAX ==> n == slots_count(all.take(i as int)),
            decreases self.entries@.len() - i,
        {
            proof {
                lemma_prefix_count(all, i + 1);
                assert(all.take(i + 1).drop_last() == all.take(i as int));
                assert(all.take(i + 1).last().1 == views(self.entries@[i as int].1@));
            }
            n = n.wrapping_add(self.entries[i].1.len() as u64);
            i = i + 1;
        }
        assert(all.take(i as int) == all);
        n
    }

    /// Evict until `size` more bytes fit.
    fn make_room(&mut self, size: usize, metrics: &mut Metrics)
        requires
            old(self).wf(),
            size <= old(self).max_bytes,
        ensures
            final(self).wf(),
            same_store(*old(self), *final(self)),
            final(self).slots() == evicted(old(self).slots(), old(self).max_bytes - size),
            final(self).bytes() <= final(self).max_bytes - size,
            final(self).bytes() <= old(self).bytes(),
            *final(metrics) == (Metrics {
                cache_evicted_bytes: wrapped(
                    old(metrics).cache_evicted_bytes,
                    old(self).bytes() - final(self).bytes(),
                ),
                ..*old(metrics)
            }),
    {
        let ghost start = self.slots();
        let ghost room = self.max_bytes - size;
        let ghost m0 = *metrics;
        let ghost first = self.total_bytes;
        while self.entries.len() > 0 && self.total_bytes > self.max_bytes - size
            invariant
                self.wf(),
                same_store(*old(self), *self),
                size <= self.max_bytes,
                room == self.max_bytes - size,
                start == old(self).slots(),
                evicted(self.slots(), room) == evicted(start, room),
                first == old(self).bytes(),
                self.total_bytes <= first,
                m0 == *old(metrics),
                *metrics == (Metrics {
                    cache_evicted_bytes: wrapped(m0.cache_evicted_bytes, first - self.total_bytes),
                    ..m0
                }),
            decreases slots_count(self.slots()) + self.slots().len(),
        {
            let ghost now = self.slots();
            let ghost t0 = self.total_bytes;
            proof {
                lemma_drop_shrinks(now);
                assert(evicted(now, room) == evicted(without_soonest(now), room));
            }
            self.evict_one(metrics);
            proof {
                lemma_wrapped(m0.cache_evicted_bytes, first - t0, t0 - self.total_bytes);
            }
        }
        proof {
            let now = self.slots();
            if now.len() == 0 {
                assert(slots_size(now) == 0);
            }
            assert(evicted(now, room) == now);
        }
    }

    /// Add an entry for which there is room.
    fn insert(&mut self, key: String, entry: Entry, size: usize)
        requires
            old(self).wf(),
            size == entry_size(entry@),
            old(self).bytes() + size <= old(self).max_bytes,
            well_formed(added(old(self).slots(), key@, entry@)),
        ensures
            final(self).wf(),
            same_store(*old(self), *final(self)),
            final(self).slots() == added(old(self).slots(), key@, entry@),
    {
        let ghost before = self.slots();
        let i = self.find_slot(key.as_str());
        if i < self.entries.len() {
            let ghost vs = before[i as int].1;
            assert(vs == views(self.entries@[i as int].1@));
            proof {
                lemma_signature_index_is(vs, entry@.vary_signature);
                lemma_slots_update(before, i as int, (before[i as int].0, replaced_variant(vs, entry@)));
            }
            let (k, mut variants) = self.entries.remove(i);
            let p = find_signature(&variants, entry.vary_signature.as_str());
            let mut replaced: usize = 0;
            let ghost kept = if p < vs.len() {
                vs.remove(p as int)
            } else {
                vs
            };
            if p < variants.len() {
                proof {
                    lemma_variants_remove(vs, p as int);
                }
                let old_entry = variants.remove(p);
                assert(old_entry@ == vs[p as int]);
                assert(views(variants@) =~= vs.remove(p as int));
                replaced = match entry_bytes(&old_entry) {
                    Some(b) => b,
                    None => 0,
                };
            }
            assert(views(variants@) == kept);
            proof {
                lemma_variants_push(kept, entry@);
                lemma_views_push(variants@, entry);
            }
            variants.push(entry);
            self.entries.insert(i, (k, variants));
            self.total_bytes = self.total_bytes - replaced;
            self.total_bytes = self.total_bytes + size;
            proof {
                assert(self.slots() =~= added(before, key@, entry@));
            }
        } else {
            let mut variants: Vec<Entry> = Vec::new();
            let ghost e = entry@;
            variants.push(entry);
            self.entries.push((key, variants));
            self.total_bytes = self.total_bytes + size;
            proof {
                assert(views(variants@) =~= seq![e]);
                lemma_slots_push(before, (key@, seq![e]));
                lemma_one_size(e);
                assert(self.slots() =~= added(before, key@, e));
            }
        }
    }

    /// What storing `entry` under `key` does to a store and to the metrics.
    pub open spec fn stored(
        before: CacheStore,
        after: CacheStore,
        key: Seq<char>,
        entry: EntryV,
        counted: Metrics,
        recounted: Metrics,
    ) -> bool {
        &&& after.wf()
        &&& same_store(before, after)
        &&& after.slots() == after_put(before.slots(), key, entry, before.max_bytes)
        &&& entry_size(entry) > before.max_bytes ==> recounted == counted
        &&& entry_size(entry) <= before.max_bytes && slots_count(after.slots()) <= u64::MAX
            ==> recounted == put_metrics(
            counted,
            before.bytes() - slots_size(
                evicted(before.slots(), before.max_bytes - entry_size(entry)),
            ),
            after.bytes() as int,
            slots_count(after.slots()) as int,
        )
    }

    /// Store a variant. Evicts oldest entries (by `expires_at`) until the
    /// new one fits. An entry that exceeds the whole store is not stored.
    pub fn put(&mut self, key: String, entry: Entry, metrics: &mut Metrics)
        requires
            old(self).wf(),
        ensures
            CacheStore::stored(
                *old(self),
                *final(self),
                key@,
                entry@,
                *old(metrics),
                *final(metrics),
            ),
    {
        let size: usize = match entry_bytes(&entry) {
            Some(n) => n,
            None => {
                return;
            },
        };
        if size > self.max_bytes {
            return;
        }
        self.make_room(size, metrics);
        let ghost mid = self.slots();
        proof {
            lemma_added_wf(mid, key@, entry@);
        }
        self.insert(key, entry, size);
        set_cache_bytes(metrics, self.total_bytes as u64);
        set_cache_entries(metrics, self.count());
    }
}

/// A 64-bit counter after `n` more.
pub open spec fn wrapped(c: u64, n: int) -> u64 {
    ((c + n) % 0x1_0000_0000_0000_0000) as u64
}

proof fn lemma_wrapped(c: u64, a: int, b: int)
    requires
        0 <= a,
        0 <= b <= u64::MAX,
    ensures
        wrapped(c, 0) == c,
        wrapped(c, a).wrapping_add(b as u64) == wrapped(c, a + b),
{
    vstd::arithmetic::div_mod::lemma_add_mod_noop(c + a, b, 0x1_0000_0000_0000_0000);
}

proof fn lemma_prefix_count(slots: Seq<Slot>, i: int)
    requires
        0 <= i <= slots.len(),
    ensures
        slots_count(slots.take(i)) <= slots_count(slots),
    decreases slots.len() - i,
{
    if i == slots.len() {
        assert(slots.take(i) == slots);
    } else {
        lemma_prefix_count(slots, i + 1);
        assert(slots.take(i + 1).drop_last() == slots.take(i));
    }
}

fn soonest_index(vs: &Vec<Entry>) -> (j: usize)
    requires
        vs@.len() > 0,
    ensures
        j < vs@.len(),
        j == soonest(views(vs@), vs@.len() as int),
{
    let ghost all = views(vs@);
    let mut best: usize = 0;
    let mut i: usize = 1;
    while i < vs.len()
        invariant
            1 <= i <= vs@.len(),
            all == views(vs@),
            best < i,
            best == soonest(all, i as int),
        decreases vs@.len() - i,
    {
        assert(all[i as int] == vs@[i as int]@ && all[best as int] == vs@[best as int]@);
        if vs[i].expires_at < vs[best].expires_at {
            best = i;
        }
        i = i + 1;
    }
    best
}

fn find_signature(vs: &Vec<Entry>, sig: &str) -> (p: usize)
    ensures
        p == signature_index(views(vs@), sig@),
        p <= vs@.len(),
{
    let ghost all = views(vs@);
    let mut i: usize = 0;
    while i < vs.len()
        invariant
            i <= vs@.len(),
            all == views(vs@),
            forall|k: int| 0 <= k < i ==> (#[trigger] all[k]).vary_signature != sig@,
        decreases vs@.len() - i,
    {
        assert(all[i as int] == vs@[i as int]@);
        if same(vs[i].vary_signature.as_str(), sig) {
            proof {
                lemma_signature_index(all, sig@, i as int);
            }
            return i;
        }
        i = i + 1;
    }
    proof {
        lemma_signature_index(all, sig@, i as int);
    }
    i
}

// ---------------------------------------------------------------------------
// Laws
// ---------------------------------------------------------------------------

/// A lookup never hands out a stale entry, nor one that was stored for a
/// request with other values of the headers it varies on.
pub proof fn law_hit_is_fresh_and_fits(
    slots: Seq<Slot>,
    key: Seq<char>,
    req: Map<Seq<char>, Seq<Seq<u8>>>,
    now: u64,
)
    ensures
        lookup(slots, key, req, now) matches Some(e) ==> e.expires_at > now && fits(e, req)
            && exists|i: int|
            0 <= i < slots.len() && (#[trigger] slots[i]).0 == key && slots[i].1.contains(e),
{
    lemma_slot_index_is(slots, key);
    let i = slot_index(slots, key);
    if i < slots.len() {
        let vs = slots[i].1;
        lemma_fresh(vs, now);
        lemma_first_fit(fresh(vs, now), req);
    }
}

proof fn lemma_first_fit(vs: Seq<EntryV>, req: Map<Seq<char>, Seq<Seq<u8>>>)
    ensures
        first_fit(vs, req) matches Some(e) ==> fits(e, req) && vs.contains(e),
    decreases vs.len(),
{
    if vs.len() > 0 {
        if fits(vs[0], req) {
            assert(vs.contains(vs[0]));
        } else {
            lemma_first_fit(vs.skip(1), req);
            if let Some(e) = first_fit(vs.skip(1), req) {
                let j = choose|j: int| 0 <= j < vs.skip(1).len() && vs.skip(1)[j] == e;
                assert(vs[j + 1] == e);
            }
        }
    }
}

/// Whether a variant stands in the way of `e`: it has another signature, and
/// yet it fits the request and has not expired.
pub open spec fn in_the_way(
    v: EntryV,
    e: EntryV,
    req: Map<Seq<char>, Seq<Seq<u8>>>,
    now: u64,
) -> bool {
    v.vary_signature != e.vary_signature && fits(v, req) && v.expires_at > now
}

/// A lookup gives back what was stored: right after an entry that fits into
/// the store has been put, a request that it fits finds it until it expires,
/// unless a variant that was there before fits the request too.
pub proof fn law_put_then_get(
    slots: Seq<Slot>,
    key: Seq<char>,
    e: EntryV,
    max: usize,
    req: Map<Seq<char>, Seq<Seq<u8>>>,
    now: u64,
)
    requires
        well_formed(slots),
        entry_size(e) <= max,
        fits(e, req),
        now < e.expires_at,
        ({
            let kept = evicted(slots, max - entry_size(e));
            forall|i: int, j: int|
                0 <= i < kept.len() && kept[i].0 == key && 0 <= j < kept[i].1.len() ==> !in_the_way(
                    #[trigger] kept[i].1[j],
                    e,
                    req,
                    now,
                )
        }),
    ensures
        lookup(after_put(slots, key, e, max), key, req, now) == Some(e),
{
    let room = max - entry_size(e);
    let kept = evicted(slots, room);
    lemma_evicted_fits(slots, room);
    lemma_added_wf(kept, key, e);
    let t = added(kept, key, e);
    lemma_slot_index_is(kept, key);
    let i = slot_index(kept, key);
    assert forall|k: int| 0 <= k < i implies (#[trigger] t[k]).0 != key by {
        assert(t[k] == kept[k]);
    }
    if i < kept.len() {
        let vs = kept[i].1;
        let out = replaced_variant(vs, e);
        assert(t[i] == (key, out));
        lemma_slot_index(t, key, i);
        lemma_signature_index_is(vs, e.vary_signature);
        let p = signature_index(vs, e.vary_signature);
        assert(distinct_variants(out)) by {
            assert(distinct_variants(t[i].1));
        }
        assert forall|k: int| 0 <= k < out.len() - 1 implies !(fits(#[trigger] out[k], req)
            && out[k].expires_at > now) by {
            let j = if p < vs.len() && k >= p {
                k + 1
            } else {
                k
            };
            assert(out[k] == vs[j]);
            assert(!in_the_way(kept[i].1[j], e, req, now));
            assert(out[out.len() - 1] == e);
        }
        lemma_last_fits(out, e, req, now);
    } else {
        assert(t[i] == (key, seq![e]));
        lemma_slot_index(t, key, i);
        lemma_last_fits(seq![e], e, req, now);
    }
}

/// Where all variants of a key vary on the same headers, a lookup always gives
/// back what was stored.
pub proof fn law_put_then_get_on_the_same_axes(
    slots: Seq<Slot>,
    key: Seq<char>,
    e: EntryV,
    max: usize,
    req: Map<Seq<char>, Seq<Seq<u8>>>,
    now: u64,
)
    requires
        well_formed(slots),
        entry_size(e) <= max,
        fits(e, req),
        now < e.expires_at,
        forall|i: int, j: int|
            0 <= i < slots.len() && slots[i].0 == key && 0 <= j < slots[i].1.len() ==> (
            #[trigger] slots[i].1[j]).vary_headers == e.vary_headers,
    ensures
        lookup(after_put(slots, key, e, max), key, req, now) == Some(e),
{
    lemma_evicted_keeps(slots, max - entry_size(e), key, e.vary_headers);
    law_put_then_get(slots, key, e, max, req, now);
}

/// The last variant is found when no other fits and is fresh.
proof fn lemma_last_fits(
    vs: Seq<EntryV>,
    e: EntryV,
    req: Map<Seq<char>, Seq<Seq<u8>>>,
    now: u64,
)
    requires
        vs.len() > 0,
        vs.last() == e,
        fits(e, req),
        now < e.expires_at,
        forall|k: int|
            0 <= k < vs.len() - 1 ==> !(fits(#[trigger] vs[k], req) && vs[k].expires_at > now),
    ensures
        first_fit(fresh(vs, now), req) == Some(e),
    decreases vs.len(),
{
    if vs.len() == 1 {
        let f = seq![vs[0]] + fresh(vs.skip(1), now);
        assert(fresh(vs, now) == f);
        assert(f[0] == e);
    } else {
        let rest = vs.skip(1);
        assert forall|k: int| 0 <= k < rest.len() - 1 implies !(fits(#[trigger] rest[k], req)
            && rest[k].expires_at > now) by {
            assert(rest[k] == vs[k + 1]);
        }
        lemma_last_fits(rest, e, req, now);
        assert(!(fits(vs[0], req) && vs[0].expires_at > now));
        if vs[0].expires_at > now {
            let f = seq![vs[0]] + fresh(rest, now);
            assert(f.skip(1) =~= fresh(rest, now));
            assert(f[0] == vs[0]);
        }
    }
}

/// Eviction keeps a store well-formed and invents no variants.
proof fn lemma_evicted_keeps(slots: Seq<Slot>, room: int, key: Seq<char>, names: Seq<Seq<char>>)
    requires
        well_formed(slots),
        forall|i: int, j: int|
            0 <= i < slots.len() && slots[i].0 == key && 0 <= j < slots[i].1.len() ==> (
            #[trigger] slots[i].1[j]).vary_headers == names,
    ensures
        well_formed(evicted(slots, room)),
        forall|i: int, j: int|
            0 <= i < evicted(slots, room).len() && evicted(slots, room)[i].0 == key && 0 <= j
                < evicted(slots, room)[i].1.len() ==> (#[trigger] evicted(
                slots,
                room,
            )[i].1[j]).vary_headers == names,
    decreases slots_count(slots) + slots.len(),
{
    if slots.len() > 0 && slots_size(slots) > room {
        lemma_drop_shrinks(slots);
        lemma_drop_wf(slots);
        let t = without_soonest(slots);
        lemma_soonest_slot_bound(slots, slots.len() as int);
        let i = soonest_slot(slots, slots.len() as int);
        let vs = slots[i].1;
        assert forall|a: int, b: int|
            0 <= a < t.len() && t[a].0 == key && 0 <= b < t[a].1.len() implies (
        #[trigger] t[a].1[b]).vary_headers == names by {
            if vs.len() <= 1 {
                let x = if a < i {
                    a
                } else {
                    a + 1
                };
                assert(t[a] == slots[x]);
                assert(slots[x].1[b].vary_headers == names);
            } else {
                lemma_soonest_bound(vs, vs.len() as int);
                let j = soonest(vs, vs.len() as int);
                if a == i {
                    let y = if b < j {
                        b
                    } else {
                        b + 1
                    };
                    assert(t[a].1[b] == vs[y]);
                    assert(slots[i].1[y].vary_headers == names);
                } else {
                    assert(t[a] == slots[a]);
                    assert(slots[a].1[b].vary_headers == names);
                }
            }
        }
        lemma_evicted_keeps(t, room, key, names);
    }
}

/// Storing an entry keeps the store within its limit and well-formed.
pub proof fn law_put_keeps_limit(slots: Seq<Slot>, key: Seq<char>, e: EntryV, max: usize)
    requires
        well_formed(slots),
        slots_size(slots) <= max,
    ensures
        well_formed(after_put(slots, key, e, max)),
        slots_size(after_put(slots, key, e, max)) <= max,
{
    if entry_size(e) <= max {
        let room = max - entry_size(e);
        lemma_evicted_fits(slots, room);
        lemma_added_wf(evicted(slots, room), key, e);
    }
}

proof fn lemma_evicted_fits(slots: Seq<Slot>, room: int)
    requires
        well_formed(slots),
        0 <= room,
    ensures
        well_formed(evicted(slots, room)),
        slots_size(evicted(slots, room)) <= room,
    decreases slots_count(slots) + slots.len(),
{
    if slots.len() > 0 && slots_size(slots) > room {
        lemma_drop_shrinks(slots);
        lemma_drop_wf(slots);
        lemma_evicted_fits(without_soonest(slots), room);
    }
}

/// Where there is room for an entry nothing is evicted for it: the variants of
/// the other keys stay as they were.
pub proof fn law_put_leaves_other_keys(
    slots: Seq<Slot>,
    key: Seq<char>,
    e: EntryV,
    max: usize,
    i: int,
)
    requires
        slots_size(slots) + entry_size(e) <= max,
        0 <= i < slots.len(),
        slots[i].0 != key,
    ensures
        i < after_put(slots, key, e, max).len(),
        after_put(slots, key, e, max)[i] == slots[i],
{
    lemma_slot_index_is(slots, key);
}

/// Variants are kept side by side: storing one leaves those of the same key
/// with other signatures in place, where there is room.
pub proof fn law_put_keeps_other_variants(
    slots: Seq<Slot>,
    key: Seq<char>,
    e: EntryV,
    max: usize,
    i: int,
    j: int,
)
    requires
        well_formed(slots),
        slots_size(slots) + entry_size(e) <= max,
        0 <= i < slots.len(),
        slots[i].0 == key,
        0 <= j < slots[i].1.len(),
        slots[i].1[j].vary_signature != e.vary_signature,
    ensures
        i < after_put(slots, key, e, max).len(),
        after_put(slots, key, e, max)[i].0 == key,
        after_put(slots, key, e, max)[i].1.contains(slots[i].1[j]),
{
    lemma_slot_index_is(slots, key);
    let vs = slots[i].1;
    assert(slot_index(slots, key) == i) by {
        let k = slot_index(slots, key);
        if k < i {
            assert(slots[k].0 != slots[i].0);
        } else if k > i {
            assert(slots[i].0 != key);
        }
    }
    lemma_signature_index_is(vs, e.vary_signature);
    let p = signature_index(vs, e.vary_signature);
    let out = replaced_variant(vs, e);
    if p < vs.len() {
        assert(vs[p].vary_signature == e.vary_signature);
        let q = if j < p {
            j
        } else {
            j - 1
        };
        assert(out[q] == vs[j]);
    } else {
        assert(out[j] == vs[j]);
    }
    assert(after_put(slots, key, e, max)[i].1 == out);
}

/// What is evicted first expires no later than anything that stays.
pub proof fn law_eviction_takes_soonest(slots: Seq<Slot>, i: int, j: int)
    requires
        well_formed(slots),
        0 <= i < slots.len(),
        0 <= j < slots[i].1.len(),
    ensures
        ({
            let v = soonest_slot(slots, slots.len() as int);
            0 <= v < slots.len() && deadline_of(slots[v]) <= slots[i].1[j].expires_at
        }),
{
    lemma_soonest_slot_bound(slots, slots.len() as int);
    lemma_soonest_min(slots[i].1, slots[i].1.len() as int, j);
    lemma_soonest_slot_min(slots, slots.len() as int, i);
}

proof fn lemma_soonest_min(vs: Seq<EntryV>, n: int, j: int)
    requires
        0 <= j < n <= vs.len(),
    ensures
        vs[soonest(vs, n)].expires_at <= vs[j].expires_at,
    decreases n,
{
    if n > 1 {
        if j < n - 1 {
            lemma_soonest_min(vs, n - 1, j);
        } else {
            lemma_soonest_min(vs, n - 1, 0);
        }
    }
}

proof fn lemma_soonest_slot_min(slots: Seq<Slot>, n: int, i: int)
    requires
        0 <= i < n <= slots.len(),
    ensures
        deadline_of(slots[soonest_slot(slots, n)]) <= deadline_of(slots[i]),
    decreases n,
{
    if n > 1 {
        if i < n - 1 {
            lemma_soonest_slot_min(slots, n - 1, i);
        } else {
            lemma_soonest_slot_min(slots, n - 1, 0);
        }
    }
}

/// Only answers to `GET` are ever stored, with a status that a rule names, a
/// body within the limit, and without cookies, `Vary: *` or a forbidding
/// `Cache-Control` on any line.
pub proof fn law_stored_is_cacheable(
    method: Seq<char>,
    headers: Map<Seq<char>, Seq<Seq<u8>>>,
    status: u16,
    body_len: int,
    rules: Seq<(Seq<u16>, Duration)>,
)
    ensures
        decision(method, headers, status, body_len, rules) is Store ==> {
            &&& method == "GET"@
            &&& header_value(headers, "set-cookie"@) is None
            &&& !vary_names(header_values(headers, "vary"@)).contains("*"@)
            &&& !any_forbids(header_values(headers, "cache-control"@))
            &&& body_len <= MAX_ENTRY_BYTES
            &&& ttl_for(rules, status) is Some
        },
{
}

/// Whether the variant `v` is held under `k`.
pub open spec fn holds(slots: Seq<Slot>, k: Seq<char>, v: EntryV) -> bool {
    exists|i: int, j: int|
        0 <= i < slots.len() && slots[i].0 == k && 0 <= j < slots[i].1.len() && (
        #[trigger] slots[i].1[j]) == v
}

/// One eviction takes the variant that expires soonest and leaves the others.
pub proof fn lemma_one_evicted(slots: Seq<Slot>, k: Seq<char>, v: EntryV)
    requires
        well_formed(slots),
        slots.len() > 0,
    ensures
        holds(without_soonest(slots), k, v) ==> holds(slots, k, v),
        holds(slots, k, v) && !holds(without_soonest(slots), k, v) ==> v.expires_at
            == deadline_of(slots[soonest_slot(slots, slots.len() as int)]),
{
    lemma_soonest_slot_bound(slots, slots.len() as int);
    let at = soonest_slot(slots, slots.len() as int);
    let vs = slots[at].1;
    lemma_soonest_bound(vs, vs.len() as int);
    let gone = soonest(vs, vs.len() as int);
    let t = without_soonest(slots);
    if holds(t, k, v) {
        let (i, j) = choose|i: int, j: int|
            0 <= i < t.len() && t[i].0 == k && 0 <= j < t[i].1.len() && (#[trigger] t[i].1[j]) == v;
        if vs.len() <= 1 {
            let x = if i < at {
                i
            } else {
                i + 1
            };
            assert(t[i] == slots[x]);
            assert(slots[x].1[j] == v);
        } else if i != at {
            assert(slots[i].1[j] == v);
        } else {
            let y = if j < gone {
                j
            } else {
                j + 1
            };
            assert(slots[at].1[y] == v);
        }
    }
    if holds(slots, k, v) && !holds(t, k, v) {
        let (i, j) = choose|i: int, j: int|
            0 <= i < slots.len() && slots[i].0 == k && 0 <= j < slots[i].1.len() && (
            #[trigger] slots[i].1[j]) == v;
        if i != at {
            let x = if vs.len() <= 1 && i > at {
                i - 1
            } else {
                i
            };
            assert(t[x] == slots[i]);
            assert(t[x].1[j] == v);
        } else if vs.len() > 1 && j != gone {
            let y = if j < gone {
                j
            } else {
                j - 1
            };
            assert(t[at].1[y] == v);
        }
    }
}

/// All that is evicted expires no later than what stays.
proof fn lemma_evicted_first(
    slots: Seq<Slot>,
    room: int,
    k: Seq<char>,
    v: EntryV,
    l: Seq<char>,
    w: EntryV,
)
    requires
        well_formed(slots),
    ensures
        well_formed(evicted(slots, room)),
        holds(evicted(slots, room), k, v) ==> holds(slots, k, v),
        holds(evicted(slots, room), l, w) ==> holds(slots, l, w),
        holds(slots, k, v) && !holds(evicted(slots, room), k, v) && holds(
            evicted(slots, room),
            l,
            w,
        ) ==> v.expires_at <= w.expires_at,
    decreases slots_count(slots) + slots.len(),
{
    if slots.len() > 0 && slots_size(slots) > room {
        let t = without_soonest(slots);
        lemma_drop_shrinks(slots);
        lemma_drop_wf(slots);
        lemma_one_evicted(slots, k, v);
        lemma_one_evicted(slots, l, w);
        lemma_evicted_first(t, room, k, v, l, w);
        if holds(slots, l, w) {
            let (i, j) = choose|i: int, j: int|
                0 <= i < slots.len() && slots[i].0 == l && 0 <= j < slots[i].1.len() && (
                #[trigger] slots[i].1[j]) == w;
            law_eviction_takes_soonest(slots, i, j);
        }
    }
}

/// What a store holds once an entry has been added.
proof fn lemma_holds_added(slots: Seq<Slot>, key: Seq<char>, e: EntryV, k: Seq<char>, v: EntryV)
    requires
        well_formed(slots),
    ensures
        holds(added(slots, key, e), k, v) == (if k == key && v.vary_signature == e.vary_signature {
            v == e
        } else {
            holds(slots, k, v)
        }),
{
    let t = added(slots, key, e);
    lemma_slot_index_is(slots, key);
    let at = slot_index(slots, key);
    if at < slots.len() {
        let vs = slots[at].1;
        lemma_signature_index_is(vs, e.vary_signature);
        let p = signature_index(vs, e.vary_signature);
        let out = replaced_variant(vs, e);
        assert(t[at].1 == out);
        assert(out.last() == e);
        assert(t[at].1[out.len() - 1] == e);
        if holds(t, k, v) {
            let (i, j) = choose|i: int, j: int|
                0 <= i < t.len() && t[i].0 == k && 0 <= j < t[i].1.len() && (#[trigger] t[i].1[j])
                    == v;
            if i != at {
                assert(slots[i].1[j] == v);
                assert(slots[i].0 != slots[at].0);
            } else if j < out.len() - 1 {
                let y = if p < vs.len() && j >= p {
                    j + 1
                } else {
                    j
                };
                assert(slots[at].1[y] == v);
                assert(distinct_variants(slots[at].1));
                assert(v.vary_signature != e.vary_signature);
            }
        }
        if holds(slots, k, v) && !(k == key && v.vary_signature == e.vary_signature) {
            let (i, j) = choose|i: int, j: int|
                0 <= i < slots.len() && slots[i].0 == k && 0 <= j < slots[i].1.len() && (
                #[trigger] slots[i].1[j]) == v;
            if i != at {
                assert(t[i].1[j] == v);
            } else {
                let y = if p < vs.len() && j > p {
                    j - 1
                } else {
                    j
                };
                assert(t[at].1[y] == v);
            }
        }
    } else {
        assert(t[at].1[0] == e);
        if holds(t, k, v) {
            let (i, j) = choose|i: int, j: int|
                0 <= i < t.len() && t[i].0 == k && 0 <= j < t[i].1.len() && (#[trigger] t[i].1[j])
                    == v;
            if i < slots.len() {
                assert(slots[i].1[j] == v);
                assert(slots[i].0 != key);
            }
        }
        if holds(slots, k, v) {
            let (i, j) = choose|i: int, j: int|
                0 <= i < slots.len() && slots[i].0 == k && 0 <= j < slots[i].1.len() && (
                #[trigger] slots[i].1[j]) == v;
            assert(t[i].1[j] == v);
            assert(slots[i].0 != key);
        }
    }
}

/// Storing an entry that fits makes it the only variant of its key with its
/// signature; one that does not fit changes nothing.
pub proof fn law_put_stores_once(slots: Seq<Slot>, key: Seq<char>, e: EntryV, max: usize, v: EntryV)
    requires
        well_formed(slots),
    ensures
        entry_size(e) > max ==> after_put(slots, key, e, max) == slots,
        entry_size(e) <= max ==> holds(after_put(slots, key, e, max), key, e),
        entry_size(e) <= max && holds(after_put(slots, key, e, max), key, v) && v.vary_signature
            == e.vary_signature ==> v == e,
{
    let kept = evicted(slots, max - entry_size(e));
    lemma_evicted_first(slots, max - entry_size(e), key, e, key, e);
    lemma_holds_added(kept, key, e, key, e);
    lemma_holds_added(kept, key, e, key, v);
}

/// To make room the soonest to expire go first: over a whole `put`, every
/// variant that is dropped, but for the one that the new entry replaces, expires
/// no later than every older variant that stays.
pub proof fn law_put_drops_soonest(
    slots: Seq<Slot>,
    key: Seq<char>,
    e: EntryV,
    max: usize,
    k: Seq<char>,
    dropped: EntryV,
    l: Seq<char>,
    kept: EntryV,
)
    requires
        well_formed(slots),
        holds(slots, k, dropped),
        !holds(after_put(slots, key, e, max), k, dropped),
        !(k == key && dropped.vary_signature == e.vary_signature),
        holds(after_put(slots, key, e, max), l, kept),
        !(l == key && kept.vary_signature == e.vary_signature),
    ensures
        dropped.expires_at <= kept.expires_at,
{
    let room = max - entry_size(e);
    lemma_evicted_first(slots, room, k, dropped, l, kept);
    lemma_holds_added(evicted(slots, room), key, e, k, dropped);
    lemma_holds_added(evicted(slots, room), key, e, l, kept);
}

} // verus!
