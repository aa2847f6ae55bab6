//! `limit_req` — request rate limiting using a token bucket per key — and
//! `limit_conn` — a cap on the requests in flight per key.
//!
//! ```text
//! http {
//!     limit_req_zone $remote_addr zone=auth:10m rate=5r/s;
//!     server {
//!         location /login {
//!             limit_req zone=auth burst=10;
//!             ...
//!         }
//!     }
//! }
//! ```
//!
//! Each rate zone is a process-wide map from rendered key → token bucket. A
//! bucket starts full (`capacity = burst + 1`) and refills at `rate` tokens
//! per second. Each accepted request consumes one token; when the bucket
//! is dry, the request is denied with `503 Service Unavailable`.
//!
//! Fractions of a token are floating-point numbers, which this module only
//! stores, as bit patterns; refilling and spending is done by the caller
//! between [`LimitReqZone::touch`] and [`LimitReqZone::settle`].
//!
//! When the zone reaches `max_entries`, the least-recently-touched bucket
//! is evicted on the next insertion. The cap protects against a flood of
//! one-off keys eating memory; pick `zone=…:SIZE` based on roughly how
//! many distinct keys you expect — every 1 MiB allows ~16 000 entries.

use crate::body::{Response, ResponseV, text, text_response};
use crate::headers::header_names;
use crate::metrics::{
    Metrics, record_limit_conn_allowed, record_limit_conn_denied, record_limit_req_allowed,
    record_limit_req_denied,
};
use crate::template::{SegmentV, Template};
use crate::text::{
    all_digits, chars, find_pair_from, lower, only_digits, opt_view, pair_at, same, split_once,
    split_once_at, to_lower, trim, trimmed, views,
};
use vstd::prelude::*;
use vstd::string::*;

verus! {

/// Each entry costs roughly this many bytes (key string + bucket + map
/// overhead). Used to translate `zone=NAME:SIZE` into an entry cap.
pub const APPROX_BYTES_PER_ENTRY: usize = 64;

/// A rate as written: a number of requests per second or per minute.
#[derive(Debug, Clone, PartialEq, Eq)]
pub struct Rate {
    /// The number, a decimal floating-point literal.
    pub count: String,
    pub per_minute: bool,
}

/// Model of a [`Rate`].
pub struct RateV {
    pub count: Seq<char>,
    pub per_minute: bool,
}

impl View for Rate {
    type V = RateV;

    open spec fn view(&self) -> RateV {
        RateV { count: self.count@, per_minute: self.per_minute }
    }
}

// ---------------------------------------------------------------------------
// Rates
// ---------------------------------------------------------------------------

/// `s` without one leading sign.
pub open spec fn unsigned(s: Seq<char>) -> Seq<char> {
    if s.len() > 0 && (s[0] == '+' || s[0] == '-') {
        s.skip(1)
    } else {
        s
    }
}

/// Digits with at most one point among them, and at least one digit.
pub open spec fn is_mantissa(s: Seq<char>) -> bool {
    match split_once_at(s, '.') {
        Some((a, b)) => all_digits(a) && all_digits(b) && a.len() + b.len() > 0,
        None => all_digits(s) && s.len() > 0,
    }
}

/// A decimal number: a mantissa and an optional exponent behind `e`.
pub open spec fn is_number(s: Seq<char>) -> bool {
    match split_once_at(s, 'e') {
        Some((m, e)) => is_mantissa(m) && all_digits(unsigned(e)) && unsigned(e).len() > 0,
        None => is_mantissa(s),
    }
}

/// A floating-point literal: an optional sign, then a decimal number, `inf`,
/// `infinity` or `nan`, in any case.
pub open spec fn is_float(s: Seq<char>) -> bool {
    let u = unsigned(lower(s));
    u == "inf"@ || u == "infinity"@ || u == "nan"@ || is_number(u)
}

fn strip_sign<'a>(s: &'a str) -> (r: &'a str)
    ensures
        r@ == unsigned(s@),
{
    let v = chars(s);
    if v.len() > 0 && (v[0] == '+' || v[0] == '-') {
        let r = s.substring_char(1, v.len());
        assert(r@ == s@.skip(1));
        r
    } else {
        s
    }
}

fn mantissa(s: &str) -> (r: bool)
    ensures
        r == is_mantissa(s@),
{
    match split_once(s, '.') {
        Some((a, b)) => only_digits(a) && only_digits(b) && !(a.is_empty() && b.is_empty()),
        None => only_digits(s) && !s.is_empty(),
    }
}

/// Whether `s` is a floating-point literal.
pub fn float_literal(s: &str) -> (r: bool)
    ensures
        r == is_float(s@),
{
    let l = to_lower(s);
    let u = strip_sign(l.as_str());
    if same(u, "inf") || same(u, "infinity") || same(u, "nan") {
        return true;
    }
    match split_once(u, 'e') {
        Some((m, e)) => {
            let e = strip_sign(e);
            mantissa(m) && only_digits(e) && !e.is_empty()
        },
        None => mantissa(u),
    }
}

/// The rate that `s` spells: `<number>r/s` or `<number>r/m`.
pub open spec fn rate_of(s: Seq<char>) -> Option<RateV> {
    let t = trimmed(s);
    let i = pair_at(t, 'r', '/');
    if i >= t.len() || !is_float(t.take(i)) {
        None
    } else if t.skip(i + 2) == "s"@ {
        Some(RateV { count: t.take(i), per_minute: false })
    } else if t.skip(i + 2) == "m"@ {
        Some(RateV { count: t.take(i), per_minute: true })
    } else {
        None
    }
}

/// Parse a rate spec like `5r/s`, `100r/s`, `60r/m`.
pub fn parse_rate(s: &str) -> (r: Option<Rate>)
    ensures
        opt_view(r) == rate_of(s@),
{
    let t = trim(s);
    let v = chars(t);
    let i = find_pair_from(&v, 'r', '/');
    if i >= v.len() {
        return None;
    }
    let count = t.substring_char(0, i);
    let unit = t.substring_char(i + 2, v.len());
    assert(count@ == t@.take(i as int));
    assert(unit@ == t@.skip(i + 2));
    if !float_literal(count) {
        return None;
    }
    if same(unit, "s") {
        Some(Rate { count: count.to_owned(), per_minute: false })
    } else if same(unit, "m") {
        Some(Rate { count: count.to_owned(), per_minute: true })
    } else {
        None
    }
}

// ---------------------------------------------------------------------------
// limit_req
// ---------------------------------------------------------------------------

/// The state of one key.
#[derive(Debug, Clone, Copy, PartialEq, Eq, Structural)]
pub struct Bucket {
    /// Bit pattern of the number of tokens.
    pub tokens: u64,
    /// When the bucket was last touched, in nanoseconds on a monotonic clock.
    pub last: u64,
}

impl View for Bucket {
    type V = Bucket;

    open spec fn view(&self) -> Bucket {
        *self
    }
}

/// Definition of one `limit_req_zone`. Multiple locations can reference
/// the same zone with different `burst` values.
#[derive(Debug)]
pub struct LimitReqZone {
    pub name: String,
    pub key_template: Template,
    pub rate: Rate,
    pub max_entries: usize,
    /// Each key once, with its bucket.
    pub buckets: Vec<(String, Bucket)>,
}

/// Model of a [`LimitReqZone`].
pub struct LimitReqZoneV {
    pub name: Seq<char>,
    pub key_template: Seq<SegmentV>,
    pub rate: RateV,
    pub max_entries: usize,
    pub buckets: Seq<(Seq<char>, Bucket)>,
}

impl View for LimitReqZone {
    type V = LimitReqZoneV;

    open spec fn view(&self) -> LimitReqZoneV {
        LimitReqZoneV {
            name: self.name@,
            key_template: self.key_template@,
            rate: self.rate@,
            max_entries: self.max_entries,
            buckets: views(self.buckets@),
        }
    }
}

/// Position of `key`, or the number of entries.
pub open spec fn key_index<T>(entries: Seq<(Seq<char>, T)>, key: Seq<char>) -> int
    decreases entries.len(),
{
    if entries.len() == 0 || entries[0].0 == key {
        0
    } else {
        1 + key_index(entries.skip(1), key)
    }
}

/// Each key stands once.
pub open spec fn distinct_keys<T>(entries: Seq<(Seq<char>, T)>) -> bool {
    forall|i: int, j: int|
        0 <= i < j < entries.len() ==> (#[trigger] entries[i]).0 != (#[trigger] entries[j]).0
}

/// The first among the first `n` buckets that was touched least recently.
pub open spec fn stalest(buckets: Seq<(Seq<char>, Bucket)>, n: int) -> int
    decreases n,
{
    if n <= 1 {
        0
    } else {
        let best = stalest(buckets, n - 1);
        if buckets[n - 1].1.last < buckets[best].1.last {
            n - 1
        } else {
            best
        }
    }
}

/// The buckets when `key` is about to be served at `now`: a new key gets a
/// bucket with `full` tokens, and in a full zone the least recently touched
/// bucket makes room for it.
pub open spec fn touched(
    buckets: Seq<(Seq<char>, Bucket)>,
    max_entries: usize,
    key: Seq<char>,
    full: u64,
    now: u64,
) -> Seq<(Seq<char>, Bucket)> {
    if key_index(buckets, key) < buckets.len() {
        buckets
    } else {
        let kept = if buckets.len() >= max_entries && buckets.len() > 0 {
            buckets.remove(stalest(buckets, buckets.len() as int))
        } else {
            buckets
        };
        kept.push((key, Bucket { tokens: full, last: now }))
    }
}

/// The buckets with that of `key` set; unchanged for an unknown key.
pub open spec fn settled(
    buckets: Seq<(Seq<char>, Bucket)>,
    key: Seq<char>,
    b: Bucket,
) -> Seq<(Seq<char>, Bucket)> {
    let i = key_index(buckets, key);
    if i < buckets.len() {
        buckets.update(i, (buckets[i].0, b))
    } else {
        buckets
    }
}

proof fn lemma_key_index<T>(entries: Seq<(Seq<char>, T)>, key: Seq<char>, i: int)
    requires
        0 <= i <= entries.len(),
        forall|k: int| 0 <= k < i ==> (#[trigger] entries[k]).0 != key,
        i == entries.len() || entries[i].0 == key,
    ensures
        key_index(entries, key) == i,
    decreases i,
{
    if i > 0 {
        assert(entries[0].0 != key);
        assert forall|k: int| 0 <= k < i - 1 implies (#[trigger] entries.skip(1)[k]).0 != key by {
            assert(entries.skip(1)[k] == entries[k + 1]);
        }
        lemma_key_index(entries.skip(1), key, i - 1);
    }
}

proof fn lemma_key_index_is<T>(entries: Seq<(Seq<char>, T)>, key: Seq<char>)
    ensures
        0 <= key_index(entries, key) <= entries.len(),
        key_index(entries, key) < entries.len() ==> entries[key_index(entries, key)].0 == key,
        forall|k: int| 0 <= k < key_index(entries, key) ==> (#[trigger] entries[k]).0 != key,
    decreases entries.len(),
{
    if entries.len() > 0 && entries[0].0 != key {
        lemma_key_index_is(entries.skip(1), key);
        assert forall|k: int| 0 <= k < key_index(entries, key) implies (#[trigger] entries[k]).0
            != key by {
            if k > 0 {
                assert(entries[k] == entries.skip(1)[k - 1]);
            }
        }
    }
}

proof fn lemma_stalest_bound(buckets: Seq<(Seq<char>, Bucket)>, n: int)
    requires
        n >= 1,
    ensures
        0 <= stalest(buckets, n) < n,
    decreases n,
{
    if n > 1 {
        lemma_stalest_bound(buckets, n - 1);
    }
}

impl LimitReqZone {
    pub fn new(name: String, key_template: Template, rate: Rate, max_entries: usize) -> (z:
        LimitReqZone)
        ensures
            z@ == (LimitReqZoneV {
                name: name@,
                key_template: key_template@,
                rate: rate@,
                max_entries,
                buckets: seq![],
            }),
    {
        let z = LimitReqZone { name, key_template, rate, max_entries, buckets: Vec::new() };
        assert(views(z.buckets@) =~= seq![]);
        z
    }

    fn find(&self, key: &str) -> (i: usize)
        ensures
            i == key_index(self@.buckets, key@),
            i <= self.buckets@.len(),
    {
        let ghost all = self@.buckets;
        let mut i: usize = 0;
        while i < self.buckets.len()
            invariant
                i <= self.buckets@.len(),
                all == views(self.buckets@),
                all == self@.buckets,
                forall|k: int| 0 <= k < i ==> (#[trigger] all[k]).0 != key@,
            decreases self.buckets@.len() - i,
        {
            assert(all[i as int] == self.buckets@[i as int]@);
            if same(self.buckets[i].0.as_str(), key) {
                proof {
                    lemma_key_index(all, key@, i as int);
                }
                return i;
            }
            i = i + 1;
        }
        proof {
            lemma_key_index(all, key@, i as int);
        }
        i
    }

    fn stalest_index(&self) -> (i: usize)
        requires
            self.buckets@.len() > 0,
        ensures
            i < self.buckets@.len(),
            i == stalest(self@.buckets, self.buckets@.len() as int),
    {
        let ghost all = self@.buckets;
        let mut best: usize = 0;
        let mut i: usize = 1;
        while i < self.buckets.len()
            invariant
                1 <= i <= self.buckets@.len(),
                all == views(self.buckets@),
                all == self@.buckets,
                best < i,
                best == stalest(all, i as int),
            decreases self.buckets@.len() - i,
        {
            assert(all[i as int] == self.buckets@[i as int]@);
            assert(all[best as int] == self.buckets@[best as int]@);
            if self.buckets[i].1.last < self.buckets[best].1.last {
                best = i;
            }
            i = i + 1;
        }
        best
    }

    /// The bucket of `key` before this request. A new key gets one with `full`
    /// tokens, evicting the least recently touched bucket of a full zone.
    pub fn touch(&mut self, key: &str, full: u64, now: u64) -> (b: Bucket)
        ensures
            final(self)@ == (LimitReqZoneV {
                buckets: touched(
                    old(self)@.buckets,
                    old(self).max_entries,
                    key@,
                    full,
                    now,
                ),
                ..old(self)@
            }),
            b == bucket_before(old(self)@.buckets, key@, full, now),
    {
        let ghost start = self@.buckets;
        let i = self.find(key);
        proof {
            lemma_key_index_is(start, key@);
        }
        if i < self.buckets.len() {
            assert(start[i as int] == self.buckets@[i as int]@);
            return self.buckets[i].1;
        }
        if self.buckets.len() >= self.max_entries && self.buckets.len() > 0 {
            let j = self.stalest_index();
            self.buckets.remove(j);
            assert(views(self.buckets@) =~= start.remove(j as int));
        }
        let ghost kept = views(self.buckets@);
        let b = Bucket { tokens: full, last: now };
        self.buckets.push((key.to_owned(), b));
        assert(views(self.buckets@) =~= kept.push((key@, b)));
        b
    }

    /// Store what is left in the bucket of `key` after this request.
    pub fn settle(&mut self, key: &str, tokens: u64, now: u64)
        ensures
            final(self)@ == (LimitReqZoneV {
                buckets: settled(old(self)@.buckets, key@, Bucket { tokens, last: now }),
                ..old(self)@
            }),
    {
        let ghost start = self@.buckets;
        let i = self.find(key);
        proof {
            lemma_key_index_is(start, key@);
        }
        if i < self.buckets.len() {
            let k = self.buckets[i].0.clone();
            self.buckets.set(i, (k, Bucket { tokens, last: now }));
            assert(views(self.buckets@) =~= start.update(
                i as int,
                (start[i as int].0, Bucket { tokens, last: now }),
            ));
        }
    }
}

/// The bucket that a request of `key` finds.
pub open spec fn bucket_before(
    buckets: Seq<(Seq<char>, Bucket)>,
    key: Seq<char>,
    full: u64,
    now: u64,
) -> Bucket {
    let i = key_index(buckets, key);
    if i < buckets.len() {
        buckets[i].1
    } else {
        Bucket { tokens: full, last: now }
    }
}

/// Resolved per-location `limit_req`: which zone, and this location's chosen
/// `burst`.
#[derive(Debug, Clone, Copy, PartialEq, Eq, Structural)]
pub struct LimitReqApply {
    pub zone: usize,
    pub burst: u32,
}

impl View for LimitReqApply {
    type V = LimitReqApply;

    open spec fn view(&self) -> LimitReqApply {
        *self
    }
}

/// The response to a request that a limit turns away.
pub open spec fn denied() -> ResponseV {
    text_response(503, "503 Service Unavailable\n"@)
}

/// Apply the verdict of a rate zone. On allow, returns `None`. On deny,
/// returns the `503` response to send back.
pub fn enforce(allowed: bool, metrics: &mut Metrics) -> (r: Option<Response>)
    ensures
        match r {
            None => allowed && *final(metrics) == (Metrics {
                limit_req_allowed: old(metrics).limit_req_allowed.wrapping_add(1),
                ..*old(metrics)
            }),
            Some(resp) => !allowed && resp@ == denied() && header_names(resp.headers) <= 1
                && *final(metrics) == (Metrics {
                limit_req_denied: old(metrics).limit_req_denied.wrapping_add(1),
                ..*old(metrics)
            }),
        },
{
    if allowed {
        record_limit_req_allowed(metrics);
        None
    } else {
        record_limit_req_denied(metrics);
        Some(text(503, "503 Service Unavailable\n"))
    }
}

// ---------------------------------------------------------------------------
// limit_conn
// ---------------------------------------------------------------------------

/// Definition of one `limit_conn_zone`.
#[derive(Debug)]
pub struct LimitConnZone {
    pub name: String,
    pub key_template: Template,
    pub max_entries: usize,
    /// Each key that has requests in flight, with their number.
    pub active: Vec<(String, u32)>,
}

/// Model of a [`LimitConnZone`].
pub struct LimitConnZoneV {
    pub name: Seq<char>,
    pub key_template: Seq<SegmentV>,
    pub max_entries: usize,
    pub active: Seq<(Seq<char>, u32)>,
}

impl View for LimitConnZone {
    type V = LimitConnZoneV;

    open spec fn view(&self) -> LimitConnZoneV {
        LimitConnZoneV {
            name: self.name@,
            key_template: self.key_template@,
            max_entries: self.max_entries,
            active: views(self.active@),
        }
    }
}

/// The number of requests of `key` that are in flight.
pub open spec fn in_flight(active: Seq<(Seq<char>, u32)>, key: Seq<char>) -> u32 {
    let i = key_index(active, key);
    if i < active.len() {
        active[i].1
    } else {
        0
    }
}

/// The counts with one more request of `key`.
pub open spec fn acquired(active: Seq<(Seq<char>, u32)>, key: Seq<char>) -> Seq<(Seq<char>, u32)> {
    let i = key_index(active, key);
    if i < active.len() {
        active.update(i, (active[i].0, (active[i].1 + 1) as u32))
    } else {
        active.push((key, 1u32))
    }
}

/// The counts with one request of `key` less. A key without requests in flight
/// is forgotten.
pub open spec fn released(active: Seq<(Seq<char>, u32)>, key: Seq<char>) -> Seq<(Seq<char>, u32)> {
    let i = key_index(active, key);
    if i < active.len() {
        if active[i].1 <= 1 {
            active.remove(i)
        } else {
            active.update(i, (active[i].0, (active[i].1 - 1) as u32))
        }
    } else {
        active
    }
}

/// Resolved per-location `limit_conn`: which zone, and how many requests of
/// one key may be in flight.
#[derive(Debug, Clone, Copy, PartialEq, Eq, Structural)]
pub struct LimitConnApply {
    pub zone: usize,
    pub max_conn: u32,
}

impl View for LimitConnApply {
    type V = LimitConnApply;

    open spec fn view(&self) -> LimitConnApply {
        *self
    }
}

impl LimitConnZone {
    pub fn new(name: String, key_template: Template, max_entries: usize) -> (z: LimitConnZone)
        ensures
            z@ == (LimitConnZoneV {
                name: name@,
                key_template: key_template@,
                max_entries,
                active: seq![],
            }),
    {
        let z = LimitConnZone { name, key_template, max_entries, active: Vec::new() };
        assert(views(z.active@) =~= seq![]);
        z
    }

    fn find(&self, key: &str) -> (i: usize)
        ensures
            i == key_index(self@.active, key@),
            i <= self.active@.len(),
    {
        let ghost all = self@.active;
        let mut i: usize = 0;
        while i < self.active.len()
            invariant
                i <= self.active@.len(),
                all == views(self.active@),
                all == self@.active,
                forall|k: int| 0 <= k < i ==> (#[trigger] all[k]).0 != key@,
            decreases self.active@.len() - i,
        {
            assert(all[i as int] == self.active@[i as int]@);
            if same(self.active[i].0.as_str(), key) {
                proof {
                    lemma_key_index(all, key@, i as int);
                }
                return i;
            }
            i = i + 1;
        }
        proof {
            lemma_key_index(all, key@, i as int);
        }
        i
    }

    /// Take a slot for `key`, unless `max` of its requests are in flight.
    pub fn acquire(&mut self, key: &str, max: u32) -> (ok: bool)
        ensures
            ok == (in_flight(old(self)@.active, key@) < max),
            final(self)@ == (LimitConnZoneV {
                active: if ok {
                    acquired(old(self)@.active, key@)
                } else {
                    old(self)@.active
                },
                ..old(self)@
            }),
    {
        let ghost start = self@.active;
        let i = self.find(key);
        proof {
            lemma_key_index_is(start, key@);
        }
        if i < self.active.len() {
            assert(start[i as int] == self.active@[i as int]@);
            let n: u32 = self.active[i].1;
            if n >= max {
                return false;
            }
            let k = self.active[i].0.clone();
            self.active.set(i, (k, n + 1));
            assert(views(self.active@) =~= start.update(i as int, (start[i as int].0, (n + 1) as u32)));
        } else {
            if max == 0 {
                return false;
            }
            self.active.push((key.to_owned(), 1));
            assert(views(self.active@) =~= start.push((key@, 1u32)));
        }
        true
    }

    /// Give a slot of `key` back.
    pub fn release(&mut self, key: &str)
        ensures
            final(self)@ == (LimitConnZoneV {
                active: released(old(self)@.active, key@),
                ..old(self)@
            }),
    {
        let ghost start = self@.active;
        let i = self.find(key);
        proof {
            lemma_key_index_is(start, key@);
        }
        if i < self.active.len() {
            assert(start[i as int] == self.active@[i as int]@);
            let n: u32 = self.active[i].1;
            if n <= 1 {
                self.active.remove(i);
                assert(views(self.active@) =~= start.remove(i as int));
            } else {
                let k = self.active[i].0.clone();
                self.active.set(i, (k, n - 1));
                assert(views(self.active@) =~= start.update(
                    i as int,
                    (start[i as int].0, (n - 1) as u32),
                ));
            }
        }
    }
}

/// Apply a connection limit for the rendered `key`. On allow a slot is taken,
/// to be given back with [`LimitConnZone::release`] when the request ends. On
/// deny, returns the `503` response to send back.
pub fn enforce_conn(zone: &mut LimitConnZone, key: &str, max: u32, metrics: &mut Metrics) -> (r:
    Option<Response>)
    ensures
        match r {
            None => in_flight(old(zone)@.active, key@) < max && final(zone)@ == (LimitConnZoneV {
                active: acquired(old(zone)@.active, key@),
                ..old(zone)@
            }) && *final(metrics) == (Metrics {
                limit_conn_allowed: old(metrics).limit_conn_allowed.wrapping_add(1),
                ..*old(metrics)
            }),
            Some(resp) => in_flight(old(zone)@.active, key@) >= max && final(zone)@ == old(zone)@
                && resp@ == denied() && header_names(resp.headers) <= 1 && *final(metrics) == (
            Metrics {
                limit_conn_denied: old(metrics).limit_conn_denied.wrapping_add(1),
                ..*old(metrics)
            }),
        },
{
    if zone.acquire(key, max) {
        record_limit_conn_allowed(metrics);
        None
    } else {
        record_limit_conn_denied(metrics);
        Some(text(503, "503 Service Unavailable\n"))
    }
}

// ---------------------------------------------------------------------------
// Laws
// ---------------------------------------------------------------------------

/// Serving a key keeps the zone within its cap (of at least one entry), with
/// every key once, and the served key in it.
pub proof fn law_zone_stays_capped(
    buckets: Seq<(Seq<char>, Bucket)>,
    max_entries: usize,
    key: Seq<char>,
    full: u64,
    now: u64,
)
    requires
        distinct_keys(buckets),
        buckets.len() <= max_entries || buckets.len() <= 1,
    ensures
        ({
            let t = touched(buckets, max_entries, key, full, now);
            &&& distinct_keys(t)
            &&& t.len() <= max_entries || t.len() <= 1
            &&& key_index(t, key) < t.len()
        }),
{
    lemma_key_index_is(buckets, key);
    let t = touched(buckets, max_entries, key, full, now);
    if key_index(buckets, key) >= buckets.len() {
        let full_zone = buckets.len() >= max_entries && buckets.len() > 0;
        let v = stalest(buckets, buckets.len() as int);
        if full_zone {
            lemma_stalest_bound(buckets, buckets.len() as int);
        }
        let kept = if full_zone {
            buckets.remove(v)
        } else {
            buckets
        };
        assert forall|i: int| 0 <= i < kept.len() implies (#[trigger] kept[i]).0 != key by {
            let x = if full_zone && i >= v {
                i + 1
            } else {
                i
            };
            assert(kept[i] == buckets[x]);
        }
        assert forall|i: int, j: int| 0 <= i < j < t.len() implies (#[trigger] t[i]).0 != (
        #[trigger] t[j]).0 by {
            assert(t[i] == kept[i]);
            let x = if full_zone && i >= v {
                i + 1
            } else {
                i
            };
            assert(kept[i] == buckets[x]);
            if j < kept.len() {
                let y = if full_zone && j >= v {
                    j + 1
                } else {
                    j
                };
                assert(t[j] == buckets[y]);
            }
        }
        assert forall|k: int| 0 <= k < kept.len() implies (#[trigger] t[k]).0 != key by {
            assert(t[k] == kept[k]);
        }
        lemma_key_index(t, key, kept.len() as int);
    }
}

/// Serving one key leaves the bucket of every other key alone, unless that
/// bucket had to make room; then nobody had gone untouched for longer.
pub proof fn law_keys_are_independent(
    buckets: Seq<(Seq<char>, Bucket)>,
    max_entries: usize,
    key: Seq<char>,
    full: u64,
    now: u64,
    i: int,
)
    requires
        0 <= i < buckets.len(),
        buckets[i].0 != key,
    ensures
        touched(buckets, max_entries, key, full, now).contains(buckets[i]) || forall|j: int|
            0 <= j < buckets.len() ==> buckets[i].1.last <= (#[trigger] buckets[j]).1.last,
{
    let t = touched(buckets, max_entries, key, full, now);
    let v = stalest(buckets, buckets.len() as int);
    if key_index(buckets, key) < buckets.len() {
        assert(t[i] == buckets[i]);
    } else if buckets.len() >= max_entries {
        lemma_stalest_bound(buckets, buckets.len() as int);
        if i == v {
            assert forall|j: int| 0 <= j < buckets.len() implies buckets[i].1.last <= (
            #[trigger] buckets[j]).1.last by {
                lemma_stalest_min(buckets, buckets.len() as int, j);
            }
        } else {
            let k = if i < v {
                i
            } else {
                i - 1
            };
            assert(t[k] == buckets[i]);
        }
    } else {
        assert(t[i] == buckets[i]);
    }
}

proof fn lemma_stalest_min(buckets: Seq<(Seq<char>, Bucket)>, n: int, j: int)
    requires
        0 <= j < n <= buckets.len(),
    ensures
        buckets[stalest(buckets, n)].1.last <= buckets[j].1.last,
    decreases n,
{
    if n > 1 {
        if j < n - 1 {
            lemma_stalest_min(buckets, n - 1, j);
        } else {
            lemma_stalest_min(buckets, n - 1, 0);
        }
    }
}

/// What is settled is what the next request of the key finds.
pub proof fn law_settled_is_found(
    buckets: Seq<(Seq<char>, Bucket)>,
    key: Seq<char>,
    b: Bucket,
    full: u64,
    now: u64,
)
    requires
        key_index(buckets, key) < buckets.len(),
    ensures
        bucket_before(settled(buckets, key, b), key, full, now) == b,
{
    lemma_key_index_is(buckets, key);
    let i = key_index(buckets, key);
    let t = settled(buckets, key, b);
    assert forall|k: int| 0 <= k < i implies (#[trigger] t[k]).0 != key by {
        assert(t[k] == buckets[k]);
    }
    lemma_key_index(t, key, i);
}

/// Every key stands once and has at least one request in flight.
pub open spec fn conn_wf(active: Seq<(Seq<char>, u32)>) -> bool {
    distinct_keys(active) && forall|i: int| 0 <= i < active.len() ==> (#[trigger] active[i]).1 >= 1
}

/// Taking a slot counts one more request of the key and of no other, and never
/// exceeds the limit; giving it back restores the counts of every key.
pub proof fn law_slots_balance(active: Seq<(Seq<char>, u32)>, key: Seq<char>, max: u32, other: Seq<char>)
    requires
        conn_wf(active),
        in_flight(active, key) < max,
        other != key,
    ensures
        conn_wf(acquired(active, key)),
        in_flight(acquired(active, key), key) == in_flight(active, key) + 1,
        in_flight(acquired(active, key), key) <= max,
        in_flight(acquired(active, key), other) == in_flight(active, other),
        in_flight(released(acquired(active, key), key), key) == in_flight(active, key),
        in_flight(released(acquired(active, key), key), other) == in_flight(active, other),
{
    lemma_key_index_is(active, key);
    lemma_key_index_is(active, other);
    let i = key_index(active, key);
    let o = key_index(active, other);
    let t = acquired(active, key);
    assert forall|a: int, b: int| 0 <= a < b < t.len() implies (#[trigger] t[a]).0 != (
    #[trigger] t[b]).0 by {
        if a < active.len() {
            assert(t[a].0 == active[a].0);
        }
        if b < active.len() {
            assert(t[b].0 == active[b].0);
        }
    }
    assert forall|a: int| 0 <= a < t.len() implies (#[trigger] t[a]).1 >= 1 by {
        if a < active.len() {
            assert(active[a].1 >= 1);
        }
    }
    assert forall|k: int| 0 <= k < i implies (#[trigger] t[k]).0 != key by {
        assert(t[k] == active[k]);
    }
    lemma_key_index(t, key, i);
    assert forall|k: int| 0 <= k < o implies (#[trigger] t[k]).0 != other by {
        if k < active.len() {
            assert(t[k].0 == active[k].0);
        }
    }
    if o < active.len() {
        lemma_key_index(t, other, o);
    } else {
        assert forall|k: int| 0 <= k < t.len() implies (#[trigger] t[k]).0 != other by {
            if k < active.len() {
                assert(t[k].0 == active[k].0);
            }
        }
        lemma_key_index(t, other, t.len() as int);
    }
    let r = released(t, key);
    if i < active.len() {
        assert(active[i].1 >= 1);
        assert(r =~= active);
    } else {
        assert(r =~= active);
    }
}

} // verus!
