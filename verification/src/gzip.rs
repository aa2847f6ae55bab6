//! On-the-fly gzip compression of finite response bodies.
//!
//! A response is compressed when:
//!
//! 1. The client offers `gzip` in `Accept-Encoding`.
//! 2. The location (or server) has `gzip on`.
//! 3. The response status is `200` / `206` / `203` / `301` / `302`.
//! 4. The response has no `Content-Encoding` already.
//! 5. The response `Content-Type` is on the eligibility list.
//! 6. The body is not shorter than the cutoff.

use crate::body::{Response, ResponseV};
use crate::cache::{tokens_in, vary_names};
use crate::headers::{
    ascii_text, carries_values, get_text, get_value, get_values, has_room, header_map,
    header_names, header_text, header_value, header_values, is_header_name, is_header_value,
    is_plain, is_text_byte, join_values, joined, lemma_decimal_is_plain, lemma_joined_is_value,
    lemma_plain_value, lemma_value_concat, readable, readable_text, set_text, set_value,
    value_views, with_header,
};
use crate::text::{
    decimal, is_space, lemma_position, lemma_position_is, lemma_split_concat, lemma_split_whole,
    lower, number, parse_number, position, push_decimal, same, split, split_at, to_lower, trim,
    trimmed, views,
};
use std::io::Write;
use vstd::prelude::*;
use vstd::string::*;
use vstd::utf8::encode_utf8;

verus! {

/// Bodies shorter than this are not worth the overhead, unless the
/// configuration says otherwise.
pub const DEFAULT_MIN_LENGTH: usize = 20;

/// MIME types compressed without an explicit `gzip_types` line.
pub open spec fn is_default_type(mime: Seq<char>) -> bool {
    ||| mime == "text/html"@ || mime == "text/css"@ || mime == "text/plain"@
    ||| mime == "text/javascript"@ || mime == "text/xml"@ || mime == "application/javascript"@
    ||| mime == "application/x-javascript"@ || mime == "application/json"@
    ||| mime == "application/xml"@ || mime == "application/atom+xml"@
    ||| mime == "application/rss+xml"@ || mime == "image/svg+xml"@ || mime == "font/woff"@
    ||| mime == "font/woff2"@
}

fn default_type(mime: &str) -> (r: bool)
    ensures
        r == is_default_type(mime@),
{
    same(mime, "text/html") || same(mime, "text/css") || same(mime, "text/plain") || same(
        mime,
        "text/javascript",
    ) || same(mime, "text/xml") || same(mime, "application/javascript") || same(
        mime,
        "application/x-javascript",
    ) || same(mime, "application/json") || same(mime, "application/xml") || same(
        mime,
        "application/atom+xml",
    ) || same(mime, "application/rss+xml") || same(mime, "image/svg+xml") || same(
        mime,
        "font/woff",
    ) || same(mime, "font/woff2")
}

/// The name in front of the parameters of a list item.
pub open spec fn item_name(part: Seq<char>) -> Seq<char> {
    trimmed(split_at(part, ';')[0])
}

fn name_of_item(part: &str) -> (r: String)
    ensures
        r@ == item_name(part@),
{
    let pieces = split(part, ';');
    proof {
        lemma_split_nonempty(part@, ';');
        assert(views(pieces@)[0] == pieces@[0]@);
    }
    trim(pieces[0].as_str()).to_owned()
}

proof fn lemma_split_nonempty(s: Seq<char>, c: char)
    ensures
        split_at(s, c).len() > 0,
{
}

/// Whether an item of `Accept-Encoding` covers gzip.
pub open spec fn covers_gzip(part: Seq<char>) -> bool {
    let name = item_name(trimmed(part));
    lower(name) == "gzip"@ || name == "*"@
}

/// Whether an item of an `Accept-Encoding` line covers gzip.
pub open spec fn lists_gzip(v: Seq<char>) -> bool {
    exists|i: int| 0 <= i < split_at(v, ',').len() && covers_gzip(#[trigger] split_at(v, ',')[i])
}

/// Whether the client offers gzip.
pub open spec fn offers_gzip(req: Map<Seq<char>, Seq<Seq<u8>>>) -> bool {
    match header_text(req, "accept-encoding"@) {
        Some(v) => lists_gzip(v),
        None => false,
    }
}

pub fn client_accepts_gzip(headers: &hyper::HeaderMap) -> (r: bool)
    ensures
        r == offers_gzip(header_map(*headers)),
{
    let v = match get_text(headers, "accept-encoding") {
        Some(v) => v,
        None => {
            return false;
        },
    };
    let parts = split(v.as_str(), ',');
    let ghost all = views(parts@);
    let mut i: usize = 0;
    while i < parts.len()
        invariant
            i <= parts@.len(),
            all == views(parts@),
            all == split_at(v@, ','),
            header_text(header_map(*headers), "accept-encoding"@) == Some(v@),
            forall|k: int| 0 <= k < i ==> !covers_gzip(#[trigger] all[k]),
        decreases parts@.len() - i,
    {
        assert(all[i as int] == parts@[i as int]@);
        let name = name_of_item(trim(parts[i].as_str()));
        let low = to_lower(name.as_str());
        if same(low.as_str(), "gzip") || same(name.as_str(), "*") {
            assert(covers_gzip(split_at(v@, ',')[i as int]));
            assert(lists_gzip(v@));
            return true;
        }
        i = i + 1;
    }
    false
}

pub open spec fn status_ok(s: u16) -> bool {
    s == 200 || s == 203 || s == 206 || s == 301 || s == 302
}

/// Whether the content type is on the default list or among `extra`.
pub open spec fn type_ok(headers: Map<Seq<char>, Seq<Seq<u8>>>, extra: Seq<Seq<char>>) -> bool {
    header_text(headers, "content-type"@) matches Some(ct) && {
        let mime = lower(item_name(ct));
        is_default_type(mime) || extra.contains(mime)
    }
}

pub fn content_type_eligible(headers: &hyper::HeaderMap, extra: &Vec<String>) -> (r: bool)
    ensures
        r == type_ok(header_map(*headers), views(extra@)),
{
    let ct = match get_text(headers, "content-type") {
        Some(v) => v,
        None => {
            return false;
        },
    };
    let mime = to_lower(name_of_item(ct.as_str()).as_str());
    if default_type(mime.as_str()) {
        return true;
    }
    let ghost all = views(extra@);
    let mut i: usize = 0;
    while i < extra.len()
        invariant
            i <= extra@.len(),
            all == views(extra@),
            header_text(header_map(*headers), "content-type"@) == Some(ct@),
            mime@ == lower(item_name(ct@)),
            forall|k: int| 0 <= k < i ==> all[k] != mime@,
        decreases extra@.len() - i,
    {
        if same(extra[i].as_str(), mime.as_str()) {
            assert(all[i as int] == mime@);
            return true;
        }
        i = i + 1;
    }
    false
}

/// Whether a body may be buffered for compression: without a limit always,
/// else only when its announced length is within the limit.
pub open spec fn may_collect(headers: Map<Seq<char>, Seq<Seq<u8>>>, max: Option<usize>) -> bool {
    match max {
        None => true,
        Some(n) => header_text(headers, "content-length"@) matches Some(v) && (number(
            v,
            usize::MAX as nat,
        ) matches Some(len) && len <= n),
    }
}

fn collectable(headers: &hyper::HeaderMap, max: Option<usize>) -> (r: bool)
    ensures
        r == may_collect(header_map(*headers), max),
{
    match max {
        None => true,
        Some(n) => match get_text(headers, "content-length") {
            None => false,
            Some(v) => match parse_number(v.as_str(), usize::MAX as u64) {
                None => false,
                Some(len) => len as usize <= n,
            },
        },
    }
}

/// Whether the head of a response allows compression.
pub open spec fn head_eligible(
    status: u16,
    headers: Map<Seq<char>, Seq<Seq<u8>>>,
    req: Map<Seq<char>, Seq<Seq<u8>>>,
    enabled: bool,
    types: Seq<Seq<char>>,
    max_collect: Option<usize>,
) -> bool {
    &&& enabled
    &&& offers_gzip(req)
    &&& status_ok(status)
    &&& header_value(headers, "content-encoding"@) is None
    &&& type_ok(headers, types)
    &&& may_collect(headers, max_collect)
}

/// Decide from the head of a response alone whether its body is worth
/// collecting for compression.
pub fn eligible(
    status: u16,
    headers: &hyper::HeaderMap,
    req_headers: &hyper::HeaderMap,
    gzip_enabled: bool,
    gzip_types: &Vec<String>,
    max_collect: Option<usize>,
) -> (r: bool)
    ensures
        r == head_eligible(
            status,
            header_map(*headers),
            header_map(*req_headers),
            gzip_enabled,
            views(gzip_types@),
            max_collect,
        ),
{
    if !gzip_enabled || !client_accepts_gzip(req_headers) {
        return false;
    }
    if !(status == 200 || status == 203 || status == 206 || status == 301 || status == 302) {
        return false;
    }
    if get_value(headers, "content-encoding").is_some() {
        return false;
    }
    content_type_eligible(headers, gzip_types) && collectable(headers, max_collect)
}

/// What `flate2::write::GzEncoder` makes of a byte string at the default
/// level; `None` when it reports an error.
pub uninterp spec fn gzip_encoded(bytes: Seq<u8>) -> Option<Seq<u8>>;

/// What `flate2::read::GzDecoder` reads from bytes to their end; `None` when
/// they are not gzip.
pub uninterp spec fn gzip_decoded(bytes: Seq<u8>) -> Option<Seq<u8>>;

/// `flate2::write::GzEncoder`, fed with the whole input and finished. The
/// header it writes carries neither a time nor a file name. What it writes, the
/// decoder reads back as the input.
#[verifier::external_body]
fn gzip_bytes(input: &Vec<u8>) -> (r: Option<Vec<u8>>)
    ensures
        match r {
            Some(v) => gzip_encoded(input@) == Some(v@) && gzip_decoded(v@) == Some(input@),
            None => gzip_encoded(input@) is None,
        },
{
    let mut encoder = flate2::write::GzEncoder::new(
        Vec::new(),
        flate2::Compression::default(),
    );
    match encoder.write_all(input) {
        Ok(()) => encoder.finish().ok(),
        Err(_) => None,
    }
}

/// Whether a `Vary` value already names `Accept-Encoding`.
pub open spec fn varies_on_encoding(vary: Seq<char>) -> bool {
    exists|i: int|
        0 <= i < split_at(vary, ',').len() && lower(
            trimmed(#[trigger] split_at(vary, ',')[i]),
        ) == "accept-encoding"@
}

fn names_encoding(vary: &str) -> (r: bool)
    ensures
        r == varies_on_encoding(vary@),
{
    let parts = split(vary, ',');
    let ghost all = views(parts@);
    let mut i: usize = 0;
    while i < parts.len()
        invariant
            i <= parts@.len(),
            all == views(parts@),
            all == split_at(vary@, ','),
            forall|k: int| 0 <= k < i ==> lower(trimmed(#[trigger] all[k])) != "accept-encoding"@,
        decreases parts@.len() - i,
    {
        assert(all[i as int] == parts@[i as int]@);
        let low = to_lower(trim(parts[i].as_str()));
        if same(low.as_str(), "accept-encoding") {
            assert(lower(trimmed(split_at(vary@, ',')[i as int])) == "accept-encoding"@);
            return true;
        }
        i = i + 1;
    }
    false
}

/// Whether any of the `Vary` lines names `Accept-Encoding`.
pub open spec fn any_names_encoding(lines: Seq<Seq<u8>>) -> bool {
    exists|i: int| 0 <= i < lines.len() && varies_on_encoding(readable(#[trigger] lines[i]))
}

fn lines_name_encoding(lines: &Vec<Vec<u8>>) -> (r: bool)
    ensures
        r == any_names_encoding(value_views(lines@)),
{
    let ghost all = value_views(lines@);
    let mut i: usize = 0;
    while i < lines.len()
        invariant
            i <= lines@.len(),
            all == value_views(lines@),
            forall|k: int| 0 <= k < i ==> !varies_on_encoding(readable(#[trigger] all[k])),
        decreases lines@.len() - i,
    {
        let line = readable_text(&lines[i]);
        assert(all[i as int] == lines@[i as int]@);
        if names_encoding(line.as_str()) {
            return true;
        }
        i = i + 1;
    }
    false
}

/// The `Vary` value of a compressed response whose `Vary` lines do not name
/// `Accept-Encoding`: what they say, and `Accept-Encoding`.
pub open spec fn vary_value(lines: Seq<Seq<u8>>) -> Seq<u8> {
    if joined(lines).len() == 0 {
        encode_utf8("Accept-Encoding"@)
    } else {
        joined(lines) + encode_utf8(", Accept-Encoding"@)
    }
}

/// The headers with `Accept-Encoding` among what the response varies on.
/// Nothing that is there already is lost.
pub open spec fn with_vary(m: Map<Seq<char>, Seq<Seq<u8>>>) -> Map<Seq<char>, Seq<Seq<u8>>> {
    let lines = header_values(m, "vary"@);
    if any_names_encoding(lines) {
        m
    } else {
        with_header(m, "vary"@, vary_value(lines))
    }
}

/// Have the response vary on `Accept-Encoding`.
fn add_vary(headers: &mut hyper::HeaderMap)
    requires
        has_room(*old(headers), 1),
    ensures
        header_map(*final(headers)) == with_vary(header_map(*old(headers))),
        header_names(*final(headers)) <= header_names(*old(headers)) + 1,
{
    let lines = get_values(headers, "vary");
    if lines_name_encoding(&lines) {
        return;
    }
    let mut value = join_values(&lines);
    if value.len() == 0 {
        set_value(headers, "vary", "Accept-Encoding".as_bytes());
    } else {
        value.extend_from_slice(", Accept-Encoding".as_bytes());
        assert(value@ =~= vary_value(value_views(lines@)));
        set_value(headers, "vary", value.as_slice());
    }
}

/// A response with its body replaced by the compressed bytes `z`, and the
/// headers that go with it.
pub open spec fn with_gzip(r: ResponseV, z: Seq<u8>) -> ResponseV {
    let a = with_header(r.headers, "content-encoding"@, encode_utf8("gzip"@));
    let b = with_header(a, "content-length"@, encode_utf8(decimal(z.len())));
    ResponseV {
        status: r.status,
        headers: with_vary(b),
        body: z,
    }
}

/// A response whose head allows compression, after it. Short bodies stay as
/// they are.
pub open spec fn body_compressed(r: ResponseV, min_length: usize) -> ResponseV {
    if r.body.len() < min_length {
        r
    } else {
        match gzip_encoded(r.body) {
            Some(z) => with_gzip(r, z),
            None => r,
        }
    }
}

/// The response that leaves the compression stage.
pub open spec fn compressed(
    r: ResponseV,
    req: Map<Seq<char>, Seq<Seq<u8>>>,
    enabled: bool,
    types: Seq<Seq<char>>,
    min_length: usize,
    max_collect: Option<usize>,
) -> ResponseV {
    if head_eligible(r.status, r.headers, req, enabled, types, max_collect) {
        body_compressed(r, min_length)
    } else {
        r
    }
}

/// Replace the body of `resp` by the compressed bytes `z`, and update
/// `Content-Encoding`, `Content-Length` and `Vary`.
pub fn attach_gzip(resp: Response, z: Vec<u8>) -> (r: Response)
    requires
        has_room(resp.headers, 3),
    ensures
        r@ == with_gzip(resp@, z@),
        header_names(r.headers) <= header_names(resp.headers) + 3,
{
    let mut resp = resp;
    let mut len = String::new();
    push_decimal(&mut len, z.len() as u64);
    assert(len@ =~= decimal(z@.len()));
    set_text(&mut resp.headers, "content-encoding", "gzip");
    set_text(&mut resp.headers, "content-length", len.as_str());
    add_vary(&mut resp.headers);
    resp.body = z;
    resp
}

/// Compress the body of a response whose head is [`eligible`].
pub fn compress_body(resp: Response, min_length: usize) -> (r: Response)
    requires
        has_room(resp.headers, 3),
    ensures
        r@ == body_compressed(resp@, min_length),
        r@ != resp@ ==> gzip_decoded(r@.body) == Some(resp@.body),
        header_names(r.headers) <= header_names(resp.headers) + 3,
{
    if resp.body.len() < min_length {
        return resp;
    }
    match gzip_bytes(&resp.body) {
        Some(z) => attach_gzip(resp, z),
        None => resp,
    }
}

/// Compress `resp` if every condition is met, with the given cutoff and limit
/// on what may be buffered. Returns the response unchanged when compression
/// is skipped.
pub fn compress(
    resp: Response,
    req_headers: &hyper::HeaderMap,
    gzip_enabled: bool,
    gzip_types: &Vec<String>,
    min_length: usize,
    max_collect: Option<usize>,
) -> (r: Response)
    requires
        has_room(resp.headers, 3),
    ensures
        r@ == compressed(
            resp@,
            header_map(*req_headers),
            gzip_enabled,
            views(gzip_types@),
            min_length,
            max_collect,
        ),
        r@ != resp@ ==> gzip_decoded(r@.body) == Some(resp@.body),
        header_names(r.headers) <= header_names(resp.headers) + 3,
{
    if eligible(
        resp.status,
        &resp.headers,
        req_headers,
        gzip_enabled,
        gzip_types,
        max_collect,
    ) {
        compress_body(resp, min_length)
    } else {
        resp
    }
}

/// Compress `resp` if every condition is met, with the default cutoff and no
/// limit.
pub fn maybe_compress(
    resp: Response,
    req_headers: &hyper::HeaderMap,
    gzip_enabled: bool,
    gzip_types: &Vec<String>,
) -> (r: Response)
    requires
        has_room(resp.headers, 3),
    ensures
        r@ == compressed(
            resp@,
            header_map(*req_headers),
            gzip_enabled,
            views(gzip_types@),
            DEFAULT_MIN_LENGTH,
            None,
        ),
        r@ != resp@ ==> gzip_decoded(r@.body) == Some(resp@.body),
{
    compress(resp, req_headers, gzip_enabled, gzip_types, DEFAULT_MIN_LENGTH, None)
}

// ---------------------------------------------------------------------------
// Laws
// ---------------------------------------------------------------------------

proof fn lemma_label_names()
    ensures
        is_header_name("content-encoding"@) && lower("content-encoding"@) == "content-encoding"@,
        is_header_name("content-length"@) && lower("content-length"@) == "content-length"@,
        is_header_name("vary"@) && lower("vary"@) == "vary"@,
        "content-encoding"@.len() == 16 && "content-length"@.len() == 14 && "vary"@.len() == 4,
{
    reveal_strlit("content-encoding");
    reveal_strlit("content-length");
    reveal_strlit("vary");
    assert(lower("content-encoding"@) =~= "content-encoding"@);
    assert(lower("content-length"@) =~= "content-length"@);
    assert(lower("vary"@) =~= "vary"@);
}

proof fn lemma_readable_plain(s: Seq<char>)
    requires
        is_plain(s),
    ensures
        readable(encode_utf8(s)) == s,
        is_header_value(encode_utf8(s)),
{
    lemma_plain_value(s);
    let v = encode_utf8(s);
    assert forall|i: int| 0 <= i < v.len() implies readable(v)[i] == s[i] by {
        assert(is_text_byte(v[i]));
        assert(ascii_text(v)->0[i] == v[i] as char);
    }
    assert(readable(v) =~= s);
}

/// The items of a list with one more list behind it.
proof fn lemma_items_join(a: Seq<char>, b: Seq<char>)
    ensures
        tokens_in(split_at(a + seq![',', ' '] + b, ',')) == tokens_in(split_at(a, ',')) + tokens_in(
            split_at(b, ','),
        ),
{
    let spaced = seq![' '] + b;
    assert(a + seq![',', ' '] + b =~= a + seq![','] + spaced);
    lemma_split_concat(a, ',', spaced);
    lemma_tokens_concat(split_at(a, ','), split_at(spaced, ','));
    // The space belongs to the first piece and is trimmed off it.
    lemma_position_is(b, ',');
    let i = position(b, ',');
    assert forall|k: int| 0 <= k < i + 1 implies spaced[k] != ',' by {
        if k > 0 {
            assert(spaced[k] == b[k - 1]);
        }
    }
    if i < b.len() {
        assert(spaced[i + 1] == b[i]);
    }
    lemma_position(spaced, ',', i + 1);
    let p = split_at(spaced, ',');
    let q = split_at(b, ',');
    let rest = if i < b.len() {
        split_at(b.skip(i + 1), ',')
    } else {
        seq![]
    };
    if i < b.len() {
        assert(spaced.skip(i + 2) =~= b.skip(i + 1));
        assert(spaced.take(i + 1) =~= seq![' '] + b.take(i));
        assert(q =~= seq![b.take(i)] + rest);
        assert(p =~= seq![seq![' '] + b.take(i)] + rest);
    } else {
        assert(b.take(i) =~= b);
        assert(p =~= seq![seq![' '] + b.take(i)] + rest);
        assert(q =~= seq![b.take(i)] + rest);
    }
    let x = b.take(i);
    assert((seq![' '] + x).skip(1) =~= x);
    assert(trimmed(seq![' '] + x) == trimmed(x)) by {
        assert(is_space(' '));
    }
    lemma_tokens_concat(seq![seq![' '] + x], rest);
    lemma_tokens_concat(seq![x], rest);
    assert(seq![seq![' '] + x].drop_last() =~= seq![]);
    assert(seq![x].drop_last() =~= seq![]);
}

proof fn lemma_tokens_concat(a: Seq<Seq<char>>, b: Seq<Seq<char>>)
    ensures
        tokens_in(a + b) == tokens_in(a) + tokens_in(b),
    decreases b.len(),
{
    if b.len() == 0 {
        assert(a + b =~= a);
        assert(tokens_in(a) + tokens_in(b) =~= tokens_in(a));
    } else {
        lemma_tokens_concat(a, b.drop_last());
        assert((a + b).drop_last() =~= a + b.drop_last());
        assert((a + b).last() == b.last());
        assert(tokens_in(a + b) =~= tokens_in(a) + tokens_in(b));
    }
}

/// Joining lines keeps their items, in order.
proof fn lemma_joined_items(lines: Seq<Seq<u8>>)
    ensures
        tokens_in(split_at(readable(joined(lines)), ',')) == vary_names(lines),
    decreases lines.len(),
{
    reveal_strlit(", ");
    reveal_with_fuel(tokens_in, 2);
    reveal_with_fuel(vary_names, 2);
    lemma_readable_plain(", "@);
    if lines.len() == 0 {
        let none = Seq::<char>::empty();
        assert(readable(joined(lines)) =~= none);
        lemma_position_is(none, ',');
        assert(split_at(none, ',') =~= seq![none]);
        assert(seq![none].drop_last() =~= seq![]);
        assert(seq![none].last() == none);
        assert(trimmed(none).len() == 0);
        assert(lower(none) =~= none);
        assert(trimmed(none) =~= none);
    } else if lines.len() == 1 {
        assert(lines.drop_last() =~= seq![]);
        assert(vary_names(lines.drop_last()) + tokens_in(split_at(readable(lines[0]), ','))
            =~= tokens_in(split_at(readable(lines[0]), ',')));
    } else {
        let before = lines.drop_last();
        lemma_joined_items(before);
        let a = joined(before);
        let b = lines.last();
        let sep = encode_utf8(", "@);
        assert(", "@ =~= seq![',', ' ']);
        assert(readable(a + sep + b) =~= readable(a) + readable(sep) + readable(b));
        lemma_items_join(readable(a), readable(b));
    }
}

/// The items of a single name.
proof fn lemma_one_item(s: Seq<char>)
    requires
        !s.contains(','),
        trimmed(s).len() > 0,
    ensures
        tokens_in(split_at(s, ',')) == seq![lower(trimmed(s))],
{
    reveal_with_fuel(tokens_in, 2);
    lemma_split_whole(s, ',');
    assert(seq![s].drop_last() =~= seq![]);
    assert(lower(trimmed(s)).len() == trimmed(s).len());
    assert(Seq::<Seq<char>>::empty().push(lower(trimmed(s))) =~= seq![lower(trimmed(s))]);
}

/// Compression keeps every item of every `Vary` line, in order, and adds
/// `Accept-Encoding` behind them where none of them is that.
pub proof fn law_vary_keeps_its_items(m: Map<Seq<char>, Seq<Seq<u8>>>)
    requires
        carries_values(m, "vary"@),
    ensures
        ({
            let before = header_values(m, "vary"@);
            let after = header_values(with_vary(m), "vary"@);
            vary_names(after) == if any_names_encoding(before) {
                vary_names(before)
            } else {
                vary_names(before).push("accept-encoding"@)
            }
        }),
{
    let lines = header_values(m, "vary"@);
    if !any_names_encoding(lines) {
        reveal_strlit("Accept-Encoding");
        reveal_strlit(", Accept-Encoding");
        reveal_strlit("accept-encoding");
        reveal_strlit(", ");
        let name = "Accept-Encoding"@;
        assert(lower(name) =~= "accept-encoding"@);
        assert(!is_space('A') && !is_space('g'));
        assert(name[0] == 'A' && name.last() == 'g');
        assert(trimmed(name) == name);
        lemma_one_item(name);
        lemma_label_names();
        lemma_joined_items(lines);
        lemma_readable_plain(name);
        lemma_readable_plain(", Accept-Encoding"@);
        let value = vary_value(lines);
        let one = seq![value];
        reveal_with_fuel(vary_names, 2);
        assert(one.drop_last() =~= seq![]);
        assert(vary_names(one) =~= tokens_in(split_at(readable(value), ',')));
        let j = joined(lines);
        if j.len() == 0 {
            assert(j =~= seq![]);
            lemma_joined_items(Seq::<Seq<u8>>::empty());
            assert(joined(Seq::<Seq<u8>>::empty()) =~= j);
            assert(vary_names(lines) == vary_names(Seq::<Seq<u8>>::empty()));
            assert(seq!["accept-encoding"@] =~= vary_names(lines).push("accept-encoding"@));
        } else {
            lemma_joined_is_value(lines);
            lemma_value_concat(j, encode_utf8(", Accept-Encoding"@));
            assert(readable(value) =~= readable(j) + ", Accept-Encoding"@);
            assert(readable(value) =~= readable(j) + seq![',', ' '] + name);
            lemma_items_join(readable(j), name);
            assert(vary_names(lines) + seq!["accept-encoding"@] =~= vary_names(lines).push(
                "accept-encoding"@,
            ));
        }
        assert(header_values(with_vary(m), "vary"@) =~= one);
    }
}

/// A compressed response says what it is: how it is encoded, how long it is, and
/// that it varies on what the client accepts.
pub proof fn law_compressed_response_is_labelled(r: ResponseV, z: Seq<u8>)
    requires
        carries_values(r.headers, "vary"@),
    ensures
        ({
            let c = with_gzip(r, z);
            &&& c.status == r.status
            &&& c.body == z
            &&& header_text(c.headers, "content-encoding"@) == Some("gzip"@)
            &&& header_text(c.headers, "content-length"@) == Some(decimal(z.len()))
            &&& vary_names(header_values(c.headers, "vary"@)).contains("accept-encoding"@)
        }),
{
    lemma_label_names();
    reveal_strlit("gzip");
    lemma_plain_value("gzip"@);
    lemma_decimal_is_plain(z.len());
    lemma_plain_value(decimal(z.len()));
    let a = with_header(r.headers, "content-encoding"@, encode_utf8("gzip"@));
    let b = with_header(a, "content-length"@, encode_utf8(decimal(z.len())));
    let lines = header_values(b, "vary"@);
    assert(lines == header_values(r.headers, "vary"@));
    law_vary_keeps_its_items(b);
    if any_names_encoding(lines) {
        let i = choose|i: int| 0 <= i < lines.len() && varies_on_encoding(
            readable(#[trigger] lines[i]),
        );
        lemma_named_item(lines, i);
    } else {
        let names = vary_names(header_values(with_vary(b), "vary"@));
        assert(names.last() == "accept-encoding"@);
        assert(names.contains(names[names.len() - 1]));
    }
}

proof fn lemma_token_of(parts: Seq<Seq<char>>, k: int)
    requires
        0 <= k < parts.len(),
        lower(trimmed(parts[k])).len() > 0,
    ensures
        tokens_in(parts).contains(lower(trimmed(parts[k]))),
    decreases parts.len(),
{
    let t = lower(trimmed(parts[k]));
    let before = tokens_in(parts.drop_last());
    if k == parts.len() - 1 {
        assert(tokens_in(parts)[before.len() as int] == t);
    } else {
        lemma_token_of(parts.drop_last(), k);
        let j = choose|j: int| 0 <= j < before.len() && before[j] == t;
        assert(tokens_in(parts)[j] == t);
    }
}

proof fn lemma_named_item(lines: Seq<Seq<u8>>, i: int)
    requires
        0 <= i < lines.len(),
        varies_on_encoding(readable(lines[i])),
    ensures
        vary_names(lines).contains("accept-encoding"@),
    decreases lines.len(),
{
    reveal_strlit("accept-encoding");
    let before = vary_names(lines.drop_last());
    let last = tokens_in(split_at(readable(lines.last()), ','));
    let all = vary_names(lines);
    assert(all == before + last);
    if i == lines.len() - 1 {
        let parts = split_at(readable(lines[i]), ',');
        let k = choose|k: int|
            0 <= k < parts.len() && lower(trimmed(#[trigger] parts[k])) == "accept-encoding"@;
        lemma_token_of(parts, k);
        let j = choose|j: int| 0 <= j < last.len() && last[j] == "accept-encoding"@;
        assert(all[before.len() + j] == "accept-encoding"@);
    } else {
        lemma_named_item(lines.drop_last(), i);
        let j = choose|j: int| 0 <= j < before.len() && before[j] == "accept-encoding"@;
        assert(all[j] == "accept-encoding"@);
    }
}

/// A client that does not offer gzip gets every response as it is.
pub proof fn law_identity_without_offer(
    r: ResponseV,
    req: Map<Seq<char>, Seq<Seq<u8>>>,
    enabled: bool,
    types: Seq<Seq<char>>,
    min_length: usize,
    max_collect: Option<usize>,
)
    requires
        !offers_gzip(req) || !enabled,
    ensures
        compressed(r, req, enabled, types, min_length, max_collect) == r,
{
}

/// Compression never changes the status, and a body that is already encoded
/// is never encoded again.
pub proof fn law_status_kept_and_no_double_encoding(
    r: ResponseV,
    req: Map<Seq<char>, Seq<Seq<u8>>>,
    enabled: bool,
    types: Seq<Seq<char>>,
    min_length: usize,
    max_collect: Option<usize>,
)
    ensures
        compressed(r, req, enabled, types, min_length, max_collect).status == r.status,
        header_value(r.headers, "content-encoding"@) is Some ==> compressed(
            r,
            req,
            enabled,
            types,
            min_length,
            max_collect,
        ) == r,
{
}

} // verus!
