//! Laws on limits and compression.

use super::cache::{lemma_plain_name, names};
use super::files::{is_text, lemma_text, tells};
use super::text::{
    is_piece, law_first_pair, law_split_has_every_piece, law_trim_finds_the_core,
    lemma_piece_bounds,
};
use crate::body::ResponseV;
use crate::gzip::{
    any_names_encoding, compressed, covers_gzip, gzip_encoded, item_name, lists_gzip,
    varies_on_encoding, with_vary,
};
use crate::headers::{header_text, is_plain, lemma_plain_value, readable, with_header};
use crate::limit::{
    Bucket, bucket_before, denied, in_flight, is_float, key_index, rate_of, RateV, settled,
    touched,
};
use crate::text::{
    decimal, lemma_pair, lemma_position, lemma_position_is, lower, number, position, split_at,
    trimmed,
};
use vstd::prelude::*;
use vstd::string::*;
use vstd::utf8::encode_utf8;

verus! {

// ---------------------------------------------------------------------------
// Limits
// ---------------------------------------------------------------------------

/// What is over a limit is answered with a `503`.
pub proof fn law_denied()
    ensures
        is_text(denied(), 503, "503 Service Unavailable\n"@),
{
    lemma_text(503, "503 Service Unavailable\n"@);
}

proof fn lemma_key<T>(entries: Seq<(Seq<char>, T)>, key: Seq<char>)
    ensures
        0 <= key_index(entries, key) <= entries.len(),
        key_index(entries, key) < entries.len() ==> entries[key_index(entries, key)].0 == key,
        forall|k: int| 0 <= k < key_index(entries, key) ==> (#[trigger] entries[k]).0 != key,
    decreases entries.len(),
{
    if entries.len() > 0 && entries[0].0 != key {
        lemma_key(entries.skip(1), key);
        assert forall|k: int| 0 <= k < key_index(entries, key) implies (#[trigger] entries[k]).0
            != key by {
            if k > 0 {
                assert(entries[k] == entries.skip(1)[k - 1]);
            }
        }
    }
}

/// How many requests of a key are in flight: what its entry says, and none without
/// one.
pub proof fn law_in_flight(active: Seq<(Seq<char>, u32)>, key: Seq<char>, i: int)
    requires
        0 <= i < active.len(),
        active[i].0 == key,
        forall|k: int| 0 <= k < i ==> (#[trigger] active[k]).0 != key,
    ensures
        in_flight(active, key) == active[i].1,
        forall|other: Seq<char>|
            (forall|k: int| 0 <= k < active.len() ==> (#[trigger] active[k]).0 != other)
                ==> #[trigger] in_flight(active, other) == 0,
{
    lemma_key(active, key);
    let j = key_index(active, key);
    if j < i {
        assert(active[j].0 != key);
    } else if i < j {
        assert(active[i].0 != key);
    }
    assert forall|other: Seq<char>|
        (forall|k: int| 0 <= k < active.len() ==> (#[trigger] active[k]).0 != other) implies #[trigger] in_flight(
        active,
        other,
    ) == 0 by {
        lemma_key(active, other);
    }
}

/// A key that is met for the first time starts with a full bucket; one that is known
/// keeps its own.
pub proof fn law_buckets_start_full(
    buckets: Seq<(Seq<char>, Bucket)>,
    max_entries: usize,
    key: Seq<char>,
    full: u64,
    now: u64,
)
    ensures
        (forall|k: int| 0 <= k < buckets.len() ==> (#[trigger] buckets[k]).0 != key) ==> {
            &&& bucket_before(buckets, key, full, now) == (Bucket { tokens: full, last: now })
            &&& touched(buckets, max_entries, key, full, now).last() == (
                key,
                Bucket { tokens: full, last: now },
            )
            &&& buckets.len() < max_entries ==> touched(buckets, max_entries, key, full, now)
                == buckets.push((key, Bucket { tokens: full, last: now }))
        },
        (exists|k: int| 0 <= k < buckets.len() && (#[trigger] buckets[k]).0 == key) ==> touched(
            buckets,
            max_entries,
            key,
            full,
            now,
        ) == buckets && exists|k: int|
            0 <= k < buckets.len() && (#[trigger] buckets[k]) == (
                key,
                bucket_before(buckets, key, full, now),
            ),
{
    lemma_key(buckets, key);
    let i = key_index(buckets, key);
    if i < buckets.len() {
        assert(buckets[i] == (key, bucket_before(buckets, key, full, now)));
    }
}

/// Settling a key changes its bucket and no other.
pub proof fn law_settling(
    buckets: Seq<(Seq<char>, Bucket)>,
    key: Seq<char>,
    b: Bucket,
    i: int,
)
    requires
        0 <= i < buckets.len(),
    ensures
        settled(buckets, key, b).len() == buckets.len(),
        buckets[i].0 != key ==> settled(buckets, key, b)[i] == buckets[i],
        buckets[i].0 == key && (forall|k: int| 0 <= k < i ==> (#[trigger] buckets[k]).0 != key)
            ==> settled(buckets, key, b)[i] == (key, b),
{
    lemma_key(buckets, key);
    let j = key_index(buckets, key);
    if buckets[i].0 == key && j < i {
        assert(buckets[j].0 != key || !(forall|k: int|
            0 <= k < i ==> (#[trigger] buckets[k]).0 != key));
    }
    if buckets[i].0 == key && i < j {
        assert(buckets[i].0 != key);
    }
}

/// A rate is a number, `r/`, and `s` or `m`; blanks around it do not count, and
/// without `r/`, with another unit or another number it is none.
pub proof fn law_rates(count: Seq<char>, unit: Seq<char>, s: Seq<char>)
    requires
        forall|k: int|
            0 <= k && k + 1 < count.len() ==> !(#[trigger] count[k] == 'r' && count[k + 1] == '/'),
        count.len() > 0 ==> !super::text::is_blank(count[0]),
        unit.len() > 0 ==> !super::text::is_blank(unit.last()),
    ensures
        ({
            let r = rate_of(count + seq!['r', '/'] + unit);
            &&& unit == seq!['s'] && is_float(count) ==> r == Some(
                RateV { count, per_minute: false },
            )
            &&& unit == seq!['m'] && is_float(count) ==> r == Some(RateV { count, per_minute: true })
            &&& !is_float(count) || (unit != seq!['s'] && unit != seq!['m']) ==> r is None
        }),
        (forall|k: int|
            0 <= k && k + 1 < trimmed(s).len() ==> !(#[trigger] trimmed(s)[k] == 'r' && trimmed(
                s,
            )[k + 1] == '/')) ==> rate_of(s) is None,
        rate_of(s) == rate_of(trimmed(s)),
{
    reveal_strlit("s");
    reveal_strlit("m");
    assert("s"@ =~= seq!['s']);
    assert("m"@ =~= seq!['m']);
    assert(seq!['s'][0] == 's' && seq!['m'][0] == 'm');
    let t = count + seq!['r', '/'] + unit;
    let n = count.len() as int;
    let none = Seq::<char>::empty();
    assert(none + t + none =~= t);
    assert(t[0] == if n > 0 {
        count[0]
    } else {
        'r'
    });
    assert(t.last() == if unit.len() > 0 {
        unit.last()
    } else {
        '/'
    });
    law_trim_finds_the_core(none, t, none);
    assert(t[n] == 'r' && t[n + 1] == '/');
    assert forall|k: int| 0 <= k < n && k + 1 < t.len() implies !(#[trigger] t[k] == 'r' && t[k + 1]
        == '/') by {
        if k + 1 < n {
            assert(t[k] == count[k] && t[k + 1] == count[k + 1]);
        }
    }
    lemma_pair(t, 'r', '/', n);
    assert(t.take(n) =~= count);
    assert(t.skip(n + 2) =~= unit);
    law_first_pair(trimmed(s), 'r', '/');
    super::text::law_trim(s);
    let u = trimmed(s);
    assert(none + u + none =~= u);
    law_trim_finds_the_core(none, u, none);
}

/// Digits, with or without a point between them, are a number.
pub proof fn law_digits_are_a_number(a: Seq<char>, b: Seq<char>)
    requires
        a.len() > 0,
        forall|k: int| 0 <= k < a.len() ==> '0' <= #[trigger] a[k] <= '9',
        forall|k: int| 0 <= k < b.len() ==> '0' <= #[trigger] b[k] <= '9',
    ensures
        is_float(a),
        is_float(a + seq!['.'] + b),
{
    let s = a + seq!['.'] + b;
    assert(lower(a) =~= a);
    assert forall|k: int| 0 <= k < s.len() implies #[trigger] lower(s)[k] == s[k] by {
        if k < a.len() {
            assert(s[k] == a[k]);
        } else if k > a.len() {
            assert(s[k] == b[k - a.len() - 1]);
        }
    }
    assert(lower(s) =~= s);
    assert(s[0] == a[0]);
    lemma_position_is(a, '.');
    lemma_position_is(a, 'e');
    assert forall|k: int| 0 <= k < s.len() implies s[k] != 'e' by {
        if k < a.len() {
            assert(s[k] == a[k]);
        } else if k > a.len() {
            assert(s[k] == b[k - a.len() - 1]);
        }
    }
    lemma_position_is(s, 'e');
    super::text::law_split_once_finds_halves(a, '.', b);
    assert forall|k: int| 0 <= k < a.len() implies crate::text::is_digit(#[trigger] a[k]) by {}
    assert forall|k: int| 0 <= k < b.len() implies crate::text::is_digit(#[trigger] b[k]) by {}
}

// ---------------------------------------------------------------------------
// Compression
// ---------------------------------------------------------------------------

/// Whether `s` is a name, in front of its parameters if it has any, with blanks around it or
/// without.
pub open spec fn is_item(s: Seq<char>, name: Seq<char>) -> bool {
    exists|n: int|
        #![trigger s.take(n)]
        0 <= n <= s.len() && (n == s.len() || s[n] == ';') && (forall|k: int|
            0 <= k < n ==> s[k] != ';') && trimmed(s.take(n)) == name
}

proof fn lemma_item(s: Seq<char>, name: Seq<char>)
    ensures
        is_item(s, name) <==> item_name(s) == name,
{
    lemma_position_is(s, ';');
    let i = position(s, ';');
    if i < s.len() {
        assert(split_at(s, ';')[0] == s.take(i));
    } else {
        assert(split_at(s, ';')[0] == s);
        assert(s.take(i) =~= s);
    }
    if item_name(s) == name {
        assert(trimmed(s.take(i)) == name);
    }
    if is_item(s, name) {
        let n = choose|n: int|
            #![trigger s.take(n)]
            0 <= n <= s.len() && (n == s.len() || s[n] == ';') && (forall|k: int|
                0 <= k < n ==> s[k] != ';') && trimmed(s.take(n)) == name;
        lemma_position(s, ';', n);
    }
}

/// Whether a client takes gzip: an item of its `Accept-Encoding` is named `gzip`, in
/// whatever case, or `*`.
pub open spec fn takes_gzip(v: Seq<char>) -> bool {
    exists|a: int, b: int, name: Seq<char>|
        is_piece(v, ',', a, b) && #[trigger] is_item(trimmed(v.subrange(a, b)), name) && (lower(name)
            == seq!['g', 'z', 'i', 'p'] || name == seq!['*'])
}

proof fn lemma_takes_gzip(v: Seq<char>)
    ensures
        lists_gzip(v) <==> takes_gzip(v),
{
    reveal_strlit("gzip");
    reveal_strlit("*");
    assert("gzip"@ =~= seq!['g', 'z', 'i', 'p']);
    assert("*"@ =~= seq!['*']);
    let parts = split_at(v, ',');
    if lists_gzip(v) {
        let i = choose|i: int| 0 <= i < parts.len() && covers_gzip(#[trigger] parts[i]);
        let (a, b) = lemma_piece_bounds(v, ',', i);
        let t = trimmed(v.subrange(a, b));
        lemma_item(t, item_name(t));
        assert(is_item(trimmed(v.subrange(a, b)), item_name(t)));
    }
    if takes_gzip(v) {
        let (a, b, name) = choose|a: int, b: int, name: Seq<char>|
            is_piece(v, ',', a, b) && #[trigger] is_item(trimmed(v.subrange(a, b)), name) && (lower(
                name,
            ) == seq!['g', 'z', 'i', 'p'] || name == seq!['*']);
        lemma_item(trimmed(v.subrange(a, b)), name);
        law_split_has_every_piece(v, ',', a, b);
        let k = choose|k: int| 0 <= k < parts.len() && parts[k] == v.subrange(a, b);
        assert(covers_gzip(parts[k]));
    }
}

/// The types that are compressed without being asked for.
pub open spec fn compresses_by_default(mime: Seq<char>) -> bool {
    ||| mime == "text/html"@ || mime == "text/css"@ || mime == "text/plain"@
    ||| mime == "text/javascript"@ || mime == "text/xml"@ || mime == "application/javascript"@
    ||| mime == "application/x-javascript"@ || mime == "application/json"@
    ||| mime == "application/xml"@ || mime == "application/atom+xml"@
    ||| mime == "application/rss+xml"@ || mime == "image/svg+xml"@ || mime == "font/woff"@
    ||| mime == "font/woff2"@
}

/// Whether a response may be compressed for a request.
pub open spec fn compressible(
    r: ResponseV,
    req: Map<Seq<char>, Seq<Seq<u8>>>,
    enabled: bool,
    types: Seq<Seq<char>>,
    min_length: usize,
    max_collect: Option<usize>,
) -> bool {
    &&& enabled
    &&& header_text(req, "accept-encoding"@) matches Some(v) && takes_gzip(v)
    &&& r.status == 200 || r.status == 203 || r.status == 206 || r.status == 301 || r.status == 302
    &&& !r.headers.contains_key("content-encoding"@)
    &&& header_text(r.headers, "content-type"@) matches Some(t) && exists|name: Seq<char>|
        #[trigger] is_item(t, name) && (compresses_by_default(lower(name)) || exists|k: int|
            0 <= k < types.len() && types[k] == lower(name))
    &&& max_collect matches Some(n) ==> (header_text(r.headers, "content-length"@) matches Some(v)
        && (number(v, usize::MAX as nat) matches Some(len) && len <= n))
    &&& r.body.len() >= min_length
}

/// A response is compressed exactly when it is switched on, the client takes gzip, the
/// status and the type are among those that are compressed, it has no encoding yet,
/// its length is known to be small enough where that is asked for, and its body is
/// long enough. Then the body is the compressed one; otherwise nothing changes.
#[verifier::rlimit(50)]
pub proof fn law_what_is_compressed(
    r: ResponseV,
    req: Map<Seq<char>, Seq<Seq<u8>>>,
    enabled: bool,
    types: Seq<Seq<char>>,
    min_length: usize,
    max_collect: Option<usize>,
)
    ensures
        ({
            let c = compressed(r, req, enabled, types, min_length, max_collect);
            if compressible(r, req, enabled, types, min_length, max_collect) {
                match gzip_encoded(r.body) {
                    Some(z) => c.body == z && c.status == r.status && tells(
                        c.headers,
                        "content-encoding"@,
                        seq!['g', 'z', 'i', 'p'],
                    ) && tells(c.headers, "content-length"@, decimal(z.len())) && forall|
                        k: Seq<char>,
                    |
                        k != "content-encoding"@ && k != "content-length"@ && k != "vary"@ ==> {
                            &&& #[trigger] c.headers.contains_key(k) == r.headers.contains_key(k)
                            &&& r.headers.contains_key(k) ==> c.headers[k] == r.headers[k]
                        },
                    None => c == r,
                }
            } else {
                c == r
            }
        }),
{
    reveal_strlit("content-encoding");
    reveal_strlit("content-length");
    reveal_strlit("vary");
    lemma_plain_name("content-encoding"@);
    lemma_plain_name("content-length"@);
    lemma_plain_name("vary"@);
    if let Some(v) = header_text(req, "accept-encoding"@) {
        lemma_takes_gzip(v);
    }
    if let Some(t) = header_text(r.headers, "content-type"@) {
        let n = item_name(t);
        lemma_item(t, n);
        assert forall|name: Seq<char>| #[trigger] is_item(t, name) implies name == n by {
            lemma_item(t, name);
        }
        if types.contains(lower(n)) {
            let k = choose|k: int| 0 <= k < types.len() && types[k] == lower(n);
        }
    }
    reveal_strlit("gzip");
    assert("gzip"@ =~= seq!['g', 'z', 'i', 'p']);
    assert(is_plain("gzip"@));
    lemma_plain_value("gzip"@);
    if let Some(z) = gzip_encoded(r.body) {
        super::files::lemma_decimal_plain(z.len());
        lemma_plain_value(decimal(z.len()));
        let a = with_header(r.headers, "content-encoding"@, encode_utf8("gzip"@));
        let b = with_header(a, "content-length"@, encode_utf8(decimal(z.len())));
        assert("content-encoding"@.len() == 16 && "content-length"@.len() == 14 && "vary"@.len()
            == 4);
        assert(with_vary(b) == b || with_vary(b).dom() =~= b.dom().insert("vary"@));
    }
}

/// Whether the `Vary` lines of headers name `Accept-Encoding`, in whatever case.
pub open spec fn varies(lines: Seq<Seq<u8>>) -> bool {
    exists|i: int| 0 <= i < lines.len() && names(#[trigger] readable(lines[i]), "accept-encoding"@)
}

/// A compressed response says once that it varies: the header stays as it is where it
/// names `Accept-Encoding`, and gets it at the end where it does not.
pub proof fn law_vary_is_told_once(lines: Seq<Seq<u8>>)
    ensures
        any_names_encoding(lines) <==> varies(lines),
{
    assert forall|i: int| 0 <= i < lines.len() implies varies_on_encoding(
        #[trigger] readable(lines[i]),
    ) == names(readable(lines[i]), "accept-encoding"@) by {
        let s = readable(lines[i]);
        let parts = split_at(s, ',');
        if varies_on_encoding(s) {
            let k = choose|k: int|
                0 <= k < parts.len() && lower(trimmed(#[trigger] parts[k])) == "accept-encoding"@;
            let (a, b) = lemma_piece_bounds(s, ',', k);
            assert(lower(trimmed(s.subrange(a, b))) == "accept-encoding"@);
        }
        if names(s, "accept-encoding"@) {
            let (a, b) = choose|a: int, b: int|
                #![trigger s.subrange(a, b)]
                is_piece(s, ',', a, b) && lower(trimmed(s.subrange(a, b))) == "accept-encoding"@;
            law_split_has_every_piece(s, ',', a, b);
            let k = choose|k: int| 0 <= k < parts.len() && parts[k] == s.subrange(a, b);
            assert(lower(trimmed(parts[k])) == "accept-encoding"@);
        }
    }
    if any_names_encoding(lines) {
        let i = choose|i: int|
            0 <= i < lines.len() && varies_on_encoding(readable(#[trigger] lines[i]));
        assert(names(readable(lines[i]), "accept-encoding"@));
    }
    if varies(lines) {
        let i = choose|i: int|
            0 <= i < lines.len() && names(#[trigger] readable(lines[i]), "accept-encoding"@);
        assert(varies_on_encoding(readable(lines[i])));
    }
}

} // verus!
