//! Laws on static files: which path is looked at, what follows from it, and what
//! the answer says.

use super::cache::lemma_plain_name;
use super::text::{
    is_piece, law_number_by_digits, law_rsplit_once, law_split_has_every_piece,
    law_split_once_finds_halves, law_without_leading, lemma_piece_bounds,
};
use crate::app::actions::{StaticKindV, TryFilesEntryRtV};
use crate::body::{ResponseV, text_response};
use crate::headers::{
    header_text, is_plain, lemma_plain_concat, lemma_plain_value, no_headers, with_header,
};
use crate::request_ctx::RequestCtx;
use crate::static_files::{
    attr_char, attr_escaped, etag_of, extension, file_name, file_plan, FileMeta, FilePlanV,
    FileReadV, FileStepV, first_step, full_answer, html_char, html_escaped, index_step, listed,
    listing_line, listing_lines, listing_page, listing_response, matches_tag, mime_of, mime_of_ext,
    range_answer, range_of, relative, safe, Stat, stat_step, text_before, try_from, TryStepV,
    url_byte, url_bytes, with_version,
};
use crate::template::rendered;
use crate::text::{
    decimal, hexadecimal, lemma_decimal_digits, number, split_at, trimmed, without_leading,
};
use vstd::prelude::*;
use vstd::string::*;
use vstd::utf8::encode_utf8;

verus! {

/// Whether a response is plain text with this status and body.
pub open spec fn is_text(r: ResponseV, status: u16, body: Seq<char>) -> bool {
    r.status == status && r.body == encode_utf8(body) && tells(
        r.headers,
        "content-type"@,
        "text/plain; charset=utf-8"@,
    )
}

/// Whether a header has exactly one line, with this text.
pub open spec fn tells(h: Map<Seq<char>, Seq<Seq<u8>>>, name: Seq<char>, value: Seq<char>) -> bool {
    h.contains_key(name) && h[name] == seq![encode_utf8(value)]
}

pub proof fn lemma_text(status: u16, body: Seq<char>)
    ensures
        is_text(text_response(status, body), status, body),
{
    reveal_strlit("content-type");
    lemma_plain_name("content-type"@);
    reveal_strlit("text/plain; charset=utf-8");
    assert(is_plain("text/plain; charset=utf-8"@));
    lemma_plain_value("text/plain; charset=utf-8"@);
}

/// A directory is listed only if `autoindex` is on, and then only without an index:
/// the step is a listing exactly then. Without `autoindex` a missing index is a
/// `404`; an index that cannot be looked at is a `403`; any other is served.
pub proof fn law_listing_needs_autoindex(
    path: Seq<char>,
    index: Seq<char>,
    stat: Stat,
    autoindex: bool,
    root: Seq<char>,
    kind: StaticKindV,
    req_path: Seq<char>,
)
    ensures
        index_step(index, stat, autoindex) is List <==> autoindex && stat is NotFound,
        !(stat_step(path, stat) is List),
        !(first_step(root, kind, req_path) is List),
        !autoindex && stat is NotFound ==> (index_step(index, stat, autoindex) matches FileStepV::Respond(
            r,
        ) && is_text(r, 404, "404 Not Found\n"@)),
        stat is Failed ==> (index_step(index, stat, autoindex) matches FileStepV::Respond(r)
            && is_text(r, 403, "403 Forbidden\n"@)),
        stat is File || stat is Dir ==> index_step(index, stat, autoindex) == FileStepV::Serve(
            index,
        ),
{
    lemma_text(404, "404 Not Found\n"@);
    lemma_text(403, "403 Forbidden\n"@);
}

/// What is found at a path decides: a file is served, a directory is served through
/// its `index.html`, nothing is a `404`, and what cannot be looked at a `403`.
pub proof fn law_what_is_found_decides(path: Seq<char>)
    ensures
        stat_step(path, Stat::File) == FileStepV::Serve(path),
        stat_step(path, Stat::NotFound) matches FileStepV::Respond(r) && is_text(
            r,
            404,
            "404 Not Found\n"@,
        ),
        stat_step(path, Stat::Failed) matches FileStepV::Respond(r) && is_text(
            r,
            403,
            "403 Forbidden\n"@,
        ),
        path.len() > 0 && path.last() != '/' ==> stat_step(path, Stat::Dir) == FileStepV::StatIndex(
            path + "/index.html"@,
        ),
        path.len() == 0 || path.last() == '/' ==> stat_step(path, Stat::Dir)
            == FileStepV::StatIndex(path + "index.html"@),
{
    lemma_text(404, "404 Not Found\n"@);
    lemma_text(403, "403 Forbidden\n"@);
    reveal_strlit("/");
    reveal_strlit("index.html");
    reveal_strlit("/index.html");
    assert(path + "/"@ + "index.html"@ =~= path + "/index.html"@);
}

/// Whether a text has `..` between slashes or ends.
pub open spec fn goes_up(s: Seq<char>) -> bool {
    exists|a: int, b: int|
        #![trigger s.subrange(a, b)]
        is_piece(s, '/', a, b) && s.subrange(a, b) == seq!['.', '.']
}

proof fn lemma_safe(s: Seq<char>)
    ensures
        safe(s) <==> !goes_up(s),
{
    reveal_strlit("..");
    assert(".."@ =~= seq!['.', '.']);
    let parts = split_at(s, '/');
    if !safe(s) {
        let k = choose|k: int| 0 <= k < parts.len() && parts[k] == ".."@;
        let (a, b) = lemma_piece_bounds(s, '/', k);
        assert(s.subrange(a, b) == seq!['.', '.']);
    }
    if goes_up(s) {
        let (a, b) = choose|a: int, b: int|
            #![trigger s.subrange(a, b)]
            is_piece(s, '/', a, b) && s.subrange(a, b) == seq!['.', '.'];
        law_split_has_every_piece(s, '/', a, b);
    }
}

/// What a request asks for below the root: its path and, for an alias, without the
/// prefix.
pub open spec fn asked_for(kind: StaticKindV, req_path: Seq<char>) -> Seq<char> {
    match kind {
        StaticKindV::Root => req_path,
        StaticKindV::Alias { prefix } => if prefix.is_prefix_of(req_path) {
            req_path.skip(prefix.len() as int)
        } else {
            req_path
        },
    }
}

/// The path that is looked at is the root and, behind a slash, the request path
/// without its leading slashes and, for an alias, without the prefix. A path with
/// `..` between slashes is refused with a `403`, and no other.
pub proof fn law_path_of_a_request(root: Seq<char>, kind: StaticKindV, req_path: Seq<char>)
    requires
        root.len() > 0,
        root.last() != '/',
    ensures
        ({
            let below = asked_for(kind, req_path);
            exists|n: int|
                #![trigger below.skip(n)]
                {
                    let rel = below.skip(n);
                    &&& 0 <= n <= below.len()
                    &&& forall|k: int| 0 <= k < n ==> below[k] == '/'
                    &&& rel.len() > 0 ==> rel[0] != '/'
                    &&& !goes_up(rel) ==> first_step(root, kind, req_path) == FileStepV::Stat(
                        root + seq!['/'] + rel,
                    )
                    &&& goes_up(rel) ==> (first_step(root, kind, req_path) matches FileStepV::Respond(
                        r,
                    ) && is_text(r, 403, "403 Forbidden\n"@))
                }
        }),
{
    let below = asked_for(kind, req_path);
    let rel = without_leading(below, '/');
    assert(relative(kind, req_path) == rel);
    law_without_leading(below, '/');
    let n = below.len() - rel.len();
    assert(below.skip(n) == rel);
    lemma_safe(rel);
    lemma_text(403, "403 Forbidden\n"@);
    reveal_strlit("/");
    assert("/"@ =~= seq!['/']);
}

// ---------------------------------------------------------------------------
// try_files
// ---------------------------------------------------------------------------

/// `try_files` asks for the first candidate at or behind `i` that does not lead
/// upwards; in front of it nothing but candidates that do, and statuses, were passed
/// over. The last entry is honoured: a status is the answer, and a path that leads
/// upwards a `403`.
pub proof fn law_try_files_in_order(
    root: Seq<char>,
    entries: Seq<TryFilesEntryRtV>,
    i: int,
    ctx: RequestCtx<'_>,
)
    requires
        0 <= i < entries.len(),
        root.len() > 0,
        root.last() != '/',
    ensures
        match try_from(root, entries, i, ctx) {
            TryStepV::Probe { index, candidate, path } => {
                &&& i <= index < entries.len()
                &&& entries[index] matches TryFilesEntryRtV::Path(t) && path == rendered(t, ctx)
                &&& !goes_up(without_leading(path, '/'))
                &&& candidate == root + seq!['/'] + without_leading(path, '/')
                &&& forall|k: int| i <= k < index ==> passed_over(#[trigger] entries[k], ctx)
            },
            TryStepV::Respond(r) => {
                &&& forall|k: int|
                    i <= k < entries.len() - 1 ==> passed_over(#[trigger] entries[k], ctx)
                &&& match entries[entries.len() - 1] {
                    TryFilesEntryRtV::Status(code) => is_text(
                        r,
                        code,
                        decimal(code as nat) + seq![' ', '\n'],
                    ),
                    TryFilesEntryRtV::Path(t) => goes_up(without_leading(rendered(t, ctx), '/'))
                        && is_text(r, 403, "403 Forbidden\n"@),
                }
            },
        },
    decreases entries.len() - i,
{
    reveal_strlit("/");
    assert("/"@ =~= seq!['/']);
    reveal_strlit(" \n");
    assert(" \n"@ =~= seq![' ', '\n']);
    let last = i == entries.len() - 1;
    match entries[i] {
        TryFilesEntryRtV::Status(code) => {
            lemma_text(code, decimal(code as nat) + " \n"@);
            if !last {
                law_try_files_in_order(root, entries, i + 1, ctx);
            }
        },
        TryFilesEntryRtV::Path(t) => {
            let rel = without_leading(rendered(t, ctx), '/');
            lemma_safe(rel);
            lemma_text(403, "403 Forbidden\n"@);
            if !safe(rel) && !last {
                law_try_files_in_order(root, entries, i + 1, ctx);
            }
        },
    }
}

/// Whether an entry that is not the last is passed over: a status, or a path that
/// leads upwards.
pub open spec fn passed_over(e: TryFilesEntryRtV, ctx: RequestCtx<'_>) -> bool {
    match e {
        TryFilesEntryRtV::Status(_) => true,
        TryFilesEntryRtV::Path(t) => goes_up(without_leading(rendered(t, ctx), '/')),
    }
}

// ---------------------------------------------------------------------------
// Conditions and ranges
// ---------------------------------------------------------------------------

/// Whether an item of a comma-separated list, trimmed, is `item`.
pub open spec fn lists_item(list: Seq<char>, item: Seq<char>) -> bool {
    exists|a: int, b: int|
        #![trigger list.subrange(a, b)]
        is_piece(list, ',', a, b) && trimmed(list.subrange(a, b)) == item
}

proof fn lemma_matches_tag(list: Seq<char>, tag: Seq<char>)
    ensures
        matches_tag(list, tag) <==> lists_item(list, tag) || lists_item(list, seq!['*']),
{
    reveal_strlit("*");
    assert("*"@ =~= seq!['*']);
    let parts = split_at(list, ',');
    if matches_tag(list, tag) {
        let i = choose|i: int|
            0 <= i < parts.len() && {
                let t = trimmed(#[trigger] parts[i]);
                t == tag || t == "*"@
            };
        let (a, b) = lemma_piece_bounds(list, ',', i);
        assert(parts[i] == list.subrange(a, b));
    }
    assert forall|a: int, b: int|
        #![trigger list.subrange(a, b)]
        is_piece(list, ',', a, b) && (trimmed(list.subrange(a, b)) == tag || trimmed(
            list.subrange(a, b),
        ) == seq!['*']) implies matches_tag(list, tag) by {
        law_split_has_every_piece(list, ',', a, b);
        let k = choose|k: int| 0 <= k < parts.len() && parts[k] == list.subrange(a, b);
        let t = trimmed(parts[k]);
        assert(t == tag || t == "*"@);
    }
}

/// The tag of a file is weak and made of its size and its time.
pub proof fn law_tag(m: FileMeta)
    ensures
        m.mtime is None <==> etag_of(m) is None,
        m.mtime matches Some(s) ==> etag_of(m) == Some(
            seq!['W', '/', '"'] + hexadecimal(m.size as nat) + seq!['-'] + hexadecimal(s as nat)
                + seq!['"'],
        ),
{
    reveal_strlit("W/\"");
    reveal_strlit("-");
    reveal_strlit("\"");
    assert("W/\""@ =~= seq!['W', '/', '"']);
    assert("-"@ =~= seq!['-']);
    assert("\""@ =~= seq!['"']);
}

/// What is read of a file: nothing, and a `304`, when the client lists its tag or
/// `*`; else the range, if it can be satisfied; a `416` for one in bytes that cannot;
/// and everything without a range or with one in another unit.
pub proof fn law_what_is_read_of_a_file(m: FileMeta, req: Map<Seq<char>, Seq<Seq<u8>>>)
    ensures
        ({
            let known = m.mtime is Some && (header_text(req, "if-none-match"@) matches Some(v) && (
            lists_item(v, etag_of(m)->0) || lists_item(v, seq!['*'])));
            let plan = file_plan(m, req);
            &&& known ==> (plan matches FilePlanV::Respond(r) && r.status == 304 && r.body.len()
                == 0)
            &&& !known && header_text(req, "range"@) is None ==> plan is Full
            &&& !known ==> (header_text(req, "range"@) matches Some(v) ==> match range_of(v, m.size) {
                Some((a, b)) => plan == FilePlanV::Range(a, b),
                None => if "bytes="@.is_prefix_of(v) {
                    plan matches FilePlanV::Respond(r) && r.status == 416 && tells(
                        r.headers,
                        "content-range"@,
                        "bytes */"@ + decimal(m.size as nat),
                    )
                } else {
                    plan is Full
                },
            })
        }),
{
    if let Some(v) = header_text(req, "if-none-match"@) {
        if m.mtime is Some {
            lemma_matches_tag(v, etag_of(m)->0);
        }
    }
    reveal_strlit("content-range");
    lemma_plain_name("content-range"@);
    reveal_strlit("bytes */");
    assert(is_plain("bytes */"@));
    lemma_decimal_plain(m.size as nat);
    lemma_plain_concat("bytes */"@, decimal(m.size as nat));
    lemma_plain_value("bytes */"@ + decimal(m.size as nat));
}

pub proof fn lemma_decimal_plain(n: nat)
    ensures
        is_plain(decimal(n)),
{
    lemma_decimal_digits(n);
    assert forall|i: int| 0 <= i < decimal(n).len() implies crate::headers::is_plain_char(
        #[trigger] decimal(n)[i],
    ) by {
        assert(crate::text::is_digit(decimal(n)[i]));
    }
}

/// A range `bytes=a-b` covers the bytes from `a` to `b`, or to the last one; `bytes=a-`
/// those from `a` on; `bytes=-n` the last `n`, or all. None is given for several
/// ranges, an empty file, a start behind the end, or what is no number.
pub proof fn law_ranges(x: Seq<char>, y: Seq<char>, size: u64)
    requires
        !x.contains('-'),
        !x.contains(','),
        !y.contains(','),
    ensures
        ({
            let r = range_of("bytes="@ + x + seq!['-'] + y, size);
            let from = number(trimmed(x), 0xffff_ffff_ffff_ffff);
            let to = number(trimmed(y), 0xffff_ffff_ffff_ffff);
            &&& size == 0 ==> r is None
            &&& r matches Some((a, b)) ==> a <= b < size
            &&& size > 0 && trimmed(x).len() > 0 && trimmed(y).len() > 0 ==> {
                &&& r is Some <==> from is Some && to is Some && from->0 <= to->0 && from->0 < size
                &&& r matches Some((a, b)) ==> a == from->0 && (b == to->0 || (b == size - 1 && to->0
                    >= size))
            }
            &&& size > 0 && trimmed(x).len() > 0 && trimmed(y).len() == 0 ==> {
                &&& r is Some <==> from is Some && from->0 < size
                &&& r matches Some((a, b)) ==> a == from->0 && b == size - 1
            }
            &&& size > 0 && trimmed(x).len() == 0 ==> {
                &&& r is Some <==> to is Some && to->0 > 0
                &&& r matches Some((a, b)) ==> b == size - 1 && (b - a + 1 == to->0 || (a == 0
                    && to->0 >= size))
            }
        }),
{
    let p = "bytes="@;
    let raw = p + x + seq!['-'] + y;
    let rest = x + seq!['-'] + y;
    assert(raw =~= p + rest);
    assert(raw.take(p.len() as int) =~= p);
    assert(raw.skip(p.len() as int) =~= rest);
    assert(!rest.contains(',')) by {
        if rest.contains(',') {
            let k = choose|k: int| 0 <= k < rest.len() && rest[k] == ',';
            if k < x.len() {
                assert(x[k] == ',');
            } else if k > x.len() {
                assert(y[k - x.len() - 1] == ',');
            }
        }
    }
    law_split_once_finds_halves(x, '-', y);
    law_number_by_digits(trimmed(x), '0', 0xffff_ffff_ffff_ffff);
    law_number_by_digits(trimmed(y), '0', 0xffff_ffff_ffff_ffff);
}

/// Only a range in bytes is one, and only one at a time.
pub proof fn law_no_range(raw: Seq<char>, size: u64)
    ensures
        !"bytes="@.is_prefix_of(raw) || raw.contains(',') ==> range_of(raw, size) is None,
{
    if "bytes="@.is_prefix_of(raw) && raw.contains(',') {
        reveal_strlit("bytes=");
        let n = "bytes="@.len() as int;
        let k = choose|k: int| 0 <= k < raw.len() && raw[k] == ',';
        if k < n {
            assert(raw[k] == "bytes="@[k]);
            assert("bytes="@[0] == 'b' && "bytes="@[1] == 'y' && "bytes="@[2] == 't'
                && "bytes="@[3] == 'e' && "bytes="@[4] == 's' && "bytes="@[5] == '=');
        } else {
            assert(raw.skip(n)[k - n] == ',');
        }
    }
}

// ---------------------------------------------------------------------------
// Answers
// ---------------------------------------------------------------------------

proof fn lemma_version_adds(h: Map<Seq<char>, Seq<Seq<u8>>>, m: FileMeta, k: Seq<char>)
    requires
        k != "etag"@,
        k != "last-modified"@,
    ensures
        with_version(h, m).contains_key(k) == h.contains_key(k),
        h.contains_key(k) ==> with_version(h, m)[k] == h[k],
{
    reveal_strlit("etag");
    reveal_strlit("last-modified");
    lemma_plain_name("etag"@);
    lemma_plain_name("last-modified"@);
}

proof fn lemma_field_names()
    ensures
        crate::headers::is_header_name("content-type"@),
        crate::text::lower("content-type"@) == "content-type"@,
        crate::headers::is_header_name("content-length"@),
        crate::text::lower("content-length"@) == "content-length"@,
        crate::headers::is_header_name("content-range"@),
        crate::text::lower("content-range"@) == "content-range"@,
        crate::headers::is_header_name("accept-ranges"@),
        crate::text::lower("accept-ranges"@) == "accept-ranges"@,
        "content-type"@.len() == 12,
        "content-length"@.len() == 14,
        "content-range"@.len() == 13,
        "accept-ranges"@.len() == 13,
        "content-range"@[0] == 'c',
        "accept-ranges"@[0] == 'a',
        "etag"@.len() == 4,
        "last-modified"@.len() == 13,
        "last-modified"@[0] == 'l',
{
    reveal_strlit("content-type");
    reveal_strlit("content-length");
    reveal_strlit("content-range");
    reveal_strlit("accept-ranges");
    reveal_strlit("etag");
    reveal_strlit("last-modified");
    lemma_plain_name("content-type"@);
    lemma_plain_name("content-length"@);
    lemma_plain_name("content-range"@);
    lemma_plain_name("accept-ranges"@);
}

#[verifier::rlimit(50)]
proof fn lemma_mime_plain(e: Seq<char>)
    ensures
        is_plain(mime_of_ext(e)),
{
    reveal_strlit("text/html; charset=utf-8");
    reveal_strlit("text/css; charset=utf-8");
    reveal_strlit("application/javascript; charset=utf-8");
    reveal_strlit("application/json");
    reveal_strlit("text/plain; charset=utf-8");
    reveal_strlit("application/xml");
    reveal_strlit("image/svg+xml");
    reveal_strlit("image/png");
    reveal_strlit("image/jpeg");
    reveal_strlit("image/gif");
    reveal_strlit("image/webp");
    reveal_strlit("image/x-icon");
    reveal_strlit("application/wasm");
    reveal_strlit("application/pdf");
    reveal_strlit("font/woff");
    reveal_strlit("font/woff2");
    reveal_strlit("application/octet-stream");
}

/// A range is answered with a `206` that says which bytes of how many it carries and
/// how many they are, and carries what was read; to `HEAD` it carries nothing. What
/// could not be read is a `500`.
#[verifier::rlimit(50)]
pub proof fn law_range_answer(
    path: Seq<char>,
    m: FileMeta,
    start: u64,
    end: u64,
    head: bool,
    read: FileReadV,
)
    requires
        start <= end,
    ensures
        ({
            let r = range_answer(path, m, start, end, head, read);
            &&& !head && !(read is Data) ==> is_text(r, 500, "500 Internal Server Error\n"@)
            &&& head || read is Data ==> {
                &&& r.status == 206
                &&& tells(r.headers, "content-type"@, mime_of(path))
                &&& tells(r.headers, "content-length"@, decimal((end - start + 1) as nat))
                &&& tells(r.headers, "accept-ranges"@, seq!['b', 'y', 't', 'e', 's'])
                &&& tells(
                    r.headers,
                    "content-range"@,
                    "bytes "@ + decimal(start as nat) + seq!['-'] + decimal(end as nat) + seq!['/']
                        + decimal(m.size as nat),
                )
                &&& head ==> r.body.len() == 0
                &&& !head ==> r.body == read->Data_0
            }
        }),
{
    lemma_text(500, "500 Internal Server Error\n"@);
    lemma_field_names();
    lemma_mime_plain(extension(file_name(split_at(path, '/'))));
    lemma_plain_value(mime_of(path));
    lemma_decimal_plain((end - start + 1) as nat);
    lemma_plain_value(decimal((end - start + 1) as nat));
    lemma_decimal_plain(start as nat);
    lemma_decimal_plain(end as nat);
    lemma_decimal_plain(m.size as nat);
    reveal_strlit("bytes");
    reveal_strlit("bytes ");
    reveal_strlit("-");
    reveal_strlit("/");
    assert("bytes"@ =~= seq!['b', 'y', 't', 'e', 's']);
    assert("-"@ =~= seq!['-']);
    assert("/"@ =~= seq!['/']);
    assert(is_plain("bytes"@) && is_plain("bytes "@) && is_plain("-"@) && is_plain("/"@));
    lemma_plain_value("bytes"@);
    let a = "bytes "@ + decimal(start as nat);
    lemma_plain_concat("bytes "@, decimal(start as nat));
    lemma_plain_concat(a, "-"@);
    lemma_plain_concat(a + "-"@, decimal(end as nat));
    lemma_plain_concat(a + "-"@ + decimal(end as nat), "/"@);
    lemma_plain_concat(a + "-"@ + decimal(end as nat) + "/"@, decimal(m.size as nat));
    let t = a + "-"@ + decimal(end as nat) + "/"@ + decimal(m.size as nat);
    lemma_plain_value(t);
    let h1 = with_header(no_headers(), "content-type"@, encode_utf8(mime_of(path)));
    let h2 = with_header(h1, "content-length"@, encode_utf8(decimal((end - start + 1) as nat)));
    let h3 = with_header(h2, "accept-ranges"@, encode_utf8("bytes"@));
    let h4 = with_header(h3, "content-range"@, encode_utf8(t));
    lemma_version_adds(h4, m, "content-type"@);
    lemma_version_adds(h4, m, "content-length"@);
    lemma_version_adds(h4, m, "accept-ranges"@);
    lemma_version_adds(h4, m, "content-range"@);
}

/// A whole file is answered with a `200` of its type that carries what was read; to
/// `HEAD` it carries nothing and says how long the file is. A file that has gone is
/// a `404`, and one that may not be read a `403`.
#[verifier::rlimit(50)]
pub proof fn law_full_answer(path: Seq<char>, m: FileMeta, head: bool, read: FileReadV)
    ensures
        ({
            let r = full_answer(path, m, head, read);
            &&& !head && read is NotFound ==> is_text(r, 404, "404 Not Found\n"@)
            &&& !head && read is Failed ==> is_text(r, 403, "403 Forbidden\n"@)
            &&& head || read is Data ==> {
                &&& r.status == 200
                &&& tells(r.headers, "content-type"@, mime_of(path))
                &&& tells(r.headers, "accept-ranges"@, seq!['b', 'y', 't', 'e', 's'])
                &&& head ==> r.body.len() == 0 && tells(
                    r.headers,
                    "content-length"@,
                    decimal(m.size as nat),
                )
                &&& !head ==> r.body == read->Data_0
            }
        }),
{
    lemma_text(404, "404 Not Found\n"@);
    lemma_text(403, "403 Forbidden\n"@);
    lemma_field_names();
    lemma_mime_plain(extension(file_name(split_at(path, '/'))));
    lemma_plain_value(mime_of(path));
    lemma_decimal_plain(m.size as nat);
    lemma_plain_value(decimal(m.size as nat));
    reveal_strlit("bytes");
    assert("bytes"@ =~= seq!['b', 'y', 't', 'e', 's']);
    assert(is_plain("bytes"@));
    lemma_plain_value("bytes"@);
    let h1 = with_header(no_headers(), "content-type"@, encode_utf8(mime_of(path)));
    let h2 = with_header(h1, "accept-ranges"@, encode_utf8("bytes"@));
    let h3 = with_header(h2, "content-length"@, encode_utf8(decimal(m.size as nat)));
    lemma_version_adds(h2, m, "content-type"@);
    lemma_version_adds(h2, m, "accept-ranges"@);
    lemma_version_adds(h3, m, "content-type"@);
    lemma_version_adds(h3, m, "accept-ranges"@);
    lemma_version_adds(h3, m, "content-length"@);
}

/// The type of a file by what stands behind the last dot of its name. A name that
/// starts with its only dot, or has none, has no ending.
#[verifier::rlimit(50)]
pub proof fn law_types_by_ending(dir: Seq<char>, stem: Seq<char>, ending: Seq<char>)
    requires
        !stem.contains('/'),
        !ending.contains('/'),
        !ending.contains('.'),
        stem.len() > 0,
        stem + seq!['.'] + ending != seq!['.', '.'],
    ensures
        ({
            let t = mime_of(dir + seq!['/'] + stem + seq!['.'] + ending);
            &&& (ending == "html"@ || ending == "htm"@) ==> t == "text/html; charset=utf-8"@
            &&& ending == "css"@ ==> t == "text/css; charset=utf-8"@
            &&& (ending == "js"@ || ending == "mjs"@) ==> t
                == "application/javascript; charset=utf-8"@
            &&& ending == "json"@ ==> t == "application/json"@
            &&& (ending == "txt"@ || ending == "text"@) ==> t == "text/plain; charset=utf-8"@
            &&& ending == "xml"@ ==> t == "application/xml"@
            &&& ending == "svg"@ ==> t == "image/svg+xml"@
            &&& ending == "png"@ ==> t == "image/png"@
            &&& (ending == "jpg"@ || ending == "jpeg"@) ==> t == "image/jpeg"@
            &&& ending == "gif"@ ==> t == "image/gif"@
            &&& ending == "webp"@ ==> t == "image/webp"@
            &&& ending == "ico"@ ==> t == "image/x-icon"@
            &&& ending == "wasm"@ ==> t == "application/wasm"@
            &&& ending == "pdf"@ ==> t == "application/pdf"@
            &&& ending == "woff"@ ==> t == "font/woff"@
            &&& ending == "woff2"@ ==> t == "font/woff2"@
            &&& ending.len() == 0 ==> t == "application/octet-stream"@
        }),
{
    let name = stem + seq!['.'] + ending;
    let path = dir + seq!['/'] + stem + seq!['.'] + ending;
    assert(path =~= dir + seq!['/'] + name);
    assert(!name.contains('/')) by {
        if name.contains('/') {
            let k = choose|k: int| 0 <= k < name.len() && name[k] == '/';
            if k < stem.len() {
                assert(stem[k] == '/');
            } else if k > stem.len() {
                assert(ending[k - stem.len() - 1] == '/');
            }
        }
    }
    crate::text::lemma_split_push(dir, '/', name);
    let parts = split_at(path, '/');
    assert(parts.last() == name);
    reveal_strlit(".");
    reveal_strlit("..");
    assert("."@.len() == 1 && name.len() >= 2);
    assert(".."@ =~= seq!['.', '.']);
    assert(file_name(parts) == name);
    law_rsplit_once(name, '.');
    assert(name[stem.len() as int] == '.');
    let (x, y) = crate::text::rsplit_once_at(name, '.')->0;
    assert(x.len() == stem.len()) by {
        assert(name == x + seq!['.'] + y);
        if x.len() < stem.len() {
            assert(y[stem.len() - x.len() - 1] == name[stem.len() as int]);
        } else if x.len() > stem.len() {
            assert(name[x.len() as int] == '.');
            assert(ending[x.len() - stem.len() - 1] == name[x.len() as int]);
        }
    }
    assert(y =~= ending) by {
        assert forall|k: int| 0 <= k < y.len() implies y[k] == ending[k] by {
            assert(y[k] == name[x.len() + 1 + k]);
        }
    }
    lemma_endings();
}

proof fn lemma_endings()
    ensures
        "html"@.len() == 4 && "html"@[0] == 'h',
        "htm"@.len() == 3 && "htm"@[0] == 'h',
        "css"@.len() == 3 && "css"@[0] == 'c',
        "js"@.len() == 2,
        "mjs"@.len() == 3 && "mjs"@[0] == 'm',
        "json"@.len() == 4 && "json"@[0] == 'j' && "json"@[1] == 's',
        "txt"@.len() == 3 && "txt"@[0] == 't',
        "text"@.len() == 4 && "text"@[0] == 't',
        "xml"@.len() == 3 && "xml"@[0] == 'x',
        "svg"@.len() == 3 && "svg"@[0] == 's',
        "png"@.len() == 3 && "png"@[0] == 'p' && "png"@[1] == 'n',
        "jpg"@.len() == 3 && "jpg"@[0] == 'j',
        "jpeg"@.len() == 4 && "jpeg"@[0] == 'j' && "jpeg"@[1] == 'p',
        "gif"@.len() == 3 && "gif"@[0] == 'g',
        "webp"@.len() == 4 && "webp"@[0] == 'w' && "webp"@[1] == 'e',
        "ico"@.len() == 3 && "ico"@[0] == 'i',
        "wasm"@.len() == 4 && "wasm"@[0] == 'w' && "wasm"@[1] == 'a',
        "pdf"@.len() == 3 && "pdf"@[0] == 'p' && "pdf"@[1] == 'd',
        "woff"@.len() == 4 && "woff"@[0] == 'w' && "woff"@[1] == 'o',
        "woff2"@.len() == 5,
{
    reveal_strlit("html");
    reveal_strlit("htm");
    reveal_strlit("css");
    reveal_strlit("js");
    reveal_strlit("mjs");
    reveal_strlit("json");
    reveal_strlit("txt");
    reveal_strlit("text");
    reveal_strlit("xml");
    reveal_strlit("svg");
    reveal_strlit("png");
    reveal_strlit("jpg");
    reveal_strlit("jpeg");
    reveal_strlit("gif");
    reveal_strlit("webp");
    reveal_strlit("ico");
    reveal_strlit("wasm");
    reveal_strlit("pdf");
    reveal_strlit("woff");
    reveal_strlit("woff2");
}

// ---------------------------------------------------------------------------
// Listings
// ---------------------------------------------------------------------------

/// Escaping goes character by character: five characters are written as entities, the
/// apostrophe only in attributes, and every other stands for itself.
pub proof fn law_escaping(s: Seq<char>, c: char)
    ensures
        html_escaped(s.push(c)) == html_escaped(s) + html_char(c),
        attr_escaped(s.push(c)) == attr_escaped(s) + attr_char(c),
        html_escaped(seq![]).len() == 0,
        attr_escaped(seq![]).len() == 0,
        html_char('<') == "&lt;"@ && attr_char('<') == "&lt;"@,
        html_char('>') == "&gt;"@ && attr_char('>') == "&gt;"@,
        html_char('&') == "&amp;"@ && attr_char('&') == "&amp;"@,
        html_char('"') == "&quot;"@ && attr_char('"') == "&quot;"@,
        attr_char('\'') == "&#39;"@,
        c != '<' && c != '>' && c != '&' && c != '"' ==> html_char(c) == seq![c],
        c != '<' && c != '>' && c != '&' && c != '"' && c != '\'' ==> attr_char(c) == seq![c],
{
    assert(s.push(c).drop_last() =~= s);
}

/// In a link, letters, digits, `-`, `_`, `.` and `~` stand for themselves, and every
/// other byte as `%` and two hexadecimal digits in capitals.
pub proof fn law_link_bytes(s: Seq<u8>, b: u8)
    ensures
        url_bytes(seq![]).len() == 0,
        url_bytes(s.push(b)) == url_bytes(s) + url_byte(b),
        (65 <= b <= 90 || 97 <= b <= 122 || 48 <= b <= 57 || b == 45 || b == 95 || b == 46 || b
            == 126) <==> url_byte(b) == seq![b as char],
        url_byte(b).len() == 1 || (url_byte(b).len() == 3 && url_byte(b)[0] == '%' && forall|k: int|
            1 <= k < 3 ==> ('0' <= #[trigger] url_byte(b)[k] <= '9' || 'A' <= url_byte(b)[k]
                <= 'F')),
{
    assert(s.push(b).drop_last() =~= s);
    if url_byte(b).len() == 3 {
        let h = b as int / 16;
        let l = b as int % 16;
        assert(0 <= h < 16 && 0 <= l < 16);
        assert(url_byte(b) != seq![b as char]) by {
            assert(seq![b as char].len() == 1);
        }
    }
}

/// A listing has one line for each entry, in order, with the name and, for a
/// directory, a slash, both in the link and in the text.
pub proof fn law_listing_lines(list: Seq<(Seq<char>, bool)>, e: (Seq<char>, bool))
    ensures
        listing_lines(seq![]).len() == 0,
        listing_lines(list.push(e)) == listing_lines(list) + listing_line(e),
        ({
            let slash = if e.1 {
                seq!['/']
            } else {
                seq![]
            };
            listing_line(e) == "<a href=\""@ + attr_escaped(url_bytes(encode_utf8(e.0)) + slash)
                + "\">"@ + html_escaped(e.0 + slash) + "</a>\n"@
        }),
{
    assert(list.push(e).drop_last() =~= list);
    reveal_strlit("/");
    assert("/"@ =~= seq!['/']);
}

/// The link to the directory above, where there is one.
pub open spec fn way_up(uri_path: Seq<char>) -> Seq<char> {
    if uri_path == seq!['/'] || uri_path.len() == 0 {
        seq![]
    } else {
        "<a href=\"../\">../</a>\n"@
    }
}

/// A directory that cannot be read is a `403`; any other is a `200` in HTML that
/// names the path, holds the lines of the entries, and above the top a way up.
pub proof fn law_listing_page(entries: Seq<(Seq<char>, bool)>, uri_path: Seq<char>)
    ensures
        is_text(listing_response(None, uri_path), 403, "403 Forbidden\n"@),
        ({
            let r = listing_response(Some(entries), uri_path);
            &&& r.status == 200
            &&& tells(r.headers, "content-type"@, "text/html; charset=utf-8"@)
            &&& r.body == encode_utf8(listing_page(entries, uri_path))
            &&& exists|a: Seq<char>, b: Seq<char>|
                listing_page(entries, uri_path) == #[trigger] (a + html_escaped(uri_path)
                    + "</h1>\n<pre>"@ + way_up(uri_path) + listing_lines(listed(entries)) + b)
        }),
{
    lemma_text(403, "403 Forbidden\n"@);
    lemma_field_names();
    reveal_strlit("text/html; charset=utf-8");
    assert(is_plain("text/html; charset=utf-8"@));
    lemma_plain_value("text/html; charset=utf-8"@);
    reveal_strlit("/");
    assert("/"@ =~= seq!['/']);
    let a = "<!doctype html>\n<html>\n<head>\n<meta charset=\"utf-8\">\n<title>Index of "@
        + html_escaped(uri_path)
        + "</title>\n<style>body{font:14px/1.5 system-ui,sans-serif;padding:1.5rem;max-width:60rem;margin:auto}h1{font-size:1.25rem;margin-bottom:1rem}pre{margin:0}a{text-decoration:none;color:inherit}a:hover{text-decoration:underline}</style>\n</head>\n<body>\n<h1>Index of "@;
    let b = "</pre>\n</body>\n</html>\n"@;
    assert(listing_page(entries, uri_path) =~= a + html_escaped(uri_path) + "</h1>\n<pre>"@ + way_up(
        uri_path,
    ) + listing_lines(listed(entries)) + b);
}

/// Names are ordered by the first character in which they differ; a name comes in
/// front of those that it begins.
pub proof fn law_name_order(p: Seq<char>, x: char, y: char, a: Seq<char>, b: Seq<char>)
    ensures
        x < y ==> text_before(p + seq![x] + a, p + seq![y] + b) && !text_before(
            p + seq![y] + b,
            p + seq![x] + a,
        ),
        text_before(p, p + seq![x] + a),
        !text_before(p, p),
    decreases p.len(),
{
    let s = p + seq![x] + a;
    let t = p + seq![y] + b;
    if p.len() > 0 {
        law_name_order(p.skip(1), x, y, a, b);
        assert(s.skip(1) =~= p.skip(1) + seq![x] + a);
        assert(t.skip(1) =~= p.skip(1) + seq![y] + b);
    }
}

} // verus!
