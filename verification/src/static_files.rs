//! Static file serving: `root`, `alias`, `Range`, conditional GET, and
//! `Last-Modified` / `ETag` (weak).
//!
//! The file system itself is asked elsewhere. Serving a request is a sequence
//! of questions to it, each of which follows from the answers so far:
//! [`locate`] names the first path to look at, [`on_stat`] and
//! [`on_index_stat`] say what a look at a path leads to, [`plan_file`] decides
//! what to read, and [`range_response`] and [`full_response`] build the answer.

use crate::app::actions::{StaticKind, StaticKindV, TryFilesEntryRt, TryFilesEntryRtV};
use crate::body::{Response, ResponseV, text, text_bytes, text_response, valid_status};
use crate::headers::{
    get_text, has_room, header_map, header_names, header_text, header_value, is_header_name,
    is_plain, is_plain_char, lemma_plain_value, new_headers, no_headers, set_text, with_header,
};
use crate::http_date::{http_date, lemma_date_is_plain};
use crate::request_ctx::{form_decoded, hex_of, RequestCtx, unescaped};
use crate::template::rendered;
use crate::text::{
    after_prefix, chars, decimal, has_char, hexadecimal, is_space, join, lemma_hexadecimal_digits,
    lemma_position_is, lower, number, parse_number, push_decimal, push_hex, rsplit_once,
    rsplit_once_at, same, split, split_at, split_once, split_once_at, starts_with, strip_prefix,
    trim, trim_start_char, trimmed, views, without_leading,
};
use vstd::prelude::*;
use vstd::string::*;
use vstd::utf8::{
    encode_utf8, encode_utf8_decode_utf8, encode_utf8_valid_utf8, is_ascii_chars,
    is_ascii_chars_encode_utf8,
};

verus! {

// ---------------------------------------------------------------------------
// Paths
// ---------------------------------------------------------------------------

/// The part of a request path that is looked up below the root. It never
/// starts with a slash.
pub open spec fn relative(kind: StaticKindV, path: Seq<char>) -> Seq<char> {
    match kind {
        StaticKindV::Root => without_leading(path, '/'),
        StaticKindV::Alias { prefix } => match after_prefix(path, prefix) {
            Some(rest) => without_leading(rest, '/'),
            None => without_leading(path, '/'),
        },
    }
}

/// Whether no component of a relative path leads upwards.
pub open spec fn safe(rel: Seq<char>) -> bool {
    !split_at(rel, '/').contains(".."@)
}

/// A path below a directory.
pub open spec fn joined(dir: Seq<char>, rel: Seq<char>) -> Seq<char> {
    if dir.len() == 0 || dir.last() == '/' {
        dir + rel
    } else {
        dir + "/"@ + rel
    }
}

fn relative_path<'a>(kind: &StaticKind, path: &'a str) -> (r: &'a str)
    ensures
        r@ == relative(kind@, path@),
{
    match kind {
        StaticKind::Root => trim_start_char(path, '/'),
        StaticKind::Alias { prefix } => match strip_prefix(path, prefix.as_str()) {
            Some(rest) => trim_start_char(rest, '/'),
            None => trim_start_char(path, '/'),
        },
    }
}

fn components_safe(rel: &str) -> (r: bool)
    ensures
        r == safe(rel@),
{
    let parts = split(rel, '/');
    let ghost all = views(parts@);
    let mut i: usize = 0;
    while i < parts.len()
        invariant
            i <= parts@.len(),
            all == views(parts@),
            all == split_at(rel@, '/'),
            forall|k: int| 0 <= k < i ==> all[k] != ".."@,
        decreases parts@.len() - i,
    {
        if same(parts[i].as_str(), "..") {
            assert(all[i as int] == ".."@);
            return false;
        }
        i = i + 1;
    }
    true
}

fn join_path(dir: &str, rel: &str) -> (r: String)
    ensures
        r@ == joined(dir@, rel@),
{
    let v = chars(dir);
    let n: usize = v.len();
    let mut out = dir.to_owned();
    if n > 0 && v[n - 1] != '/' {
        out.append("/");
    }
    out.append(rel);
    out
}

/// What a look at the file system is needed for next.
#[derive(Debug)]
pub enum FileStep {
    /// Nothing: this is the answer.
    Respond(Response),
    /// Look at this path, and go on with [`on_stat`].
    Stat(String),
    /// Look at this path inside the directory, and go on with
    /// [`on_index_stat`].
    StatIndex(String),
    /// List the directory that was looked at, and go on with
    /// [`directory_listing`].
    List,
    /// Serve this file, and go on with [`plan_file`].
    Serve(String),
}

/// Model of a [`FileStep`].
pub enum FileStepV {
    Respond(ResponseV),
    Stat(Seq<char>),
    StatIndex(Seq<char>),
    List,
    Serve(Seq<char>),
}

impl View for FileStep {
    type V = FileStepV;

    open spec fn view(&self) -> FileStepV {
        match self {
            FileStep::Respond(r) => FileStepV::Respond(r@),
            FileStep::Stat(p) => FileStepV::Stat(p@),
            FileStep::StatIndex(p) => FileStepV::StatIndex(p@),
            FileStep::List => FileStepV::List,
            FileStep::Serve(p) => FileStepV::Serve(p@),
        }
    }
}

/// What a look at a path showed.
#[derive(Debug, Clone, Copy, PartialEq, Eq, Structural)]
pub enum Stat {
    /// Nothing there.
    NotFound,
    /// Some other failure.
    Failed,
    Dir,
    File,
}

/// The first step of serving `req_path`. Paths that lead upwards are refused.
pub open spec fn first_step(root: Seq<char>, kind: StaticKindV, req_path: Seq<char>) -> FileStepV {
    let rel = relative(kind, req_path);
    if safe(rel) {
        FileStepV::Stat(joined(root, rel))
    } else {
        FileStepV::Respond(text_response(403, "403 Forbidden\n"@))
    }
}

/// Name the path to look at for `req_path`. Path traversal is rejected at the
/// component level.
pub fn locate(root: &str, kind: &StaticKind, req_path: &str) -> (r: FileStep)
    ensures
        r@ == first_step(root@, kind@, req_path@),
{
    let rel = relative_path(kind, req_path);
    if !components_safe(rel) {
        return FileStep::Respond(text(403, "403 Forbidden\n"));
    }
    FileStep::Stat(join_path(root, rel))
}

/// What follows from a look at `path`: a directory is served through its
/// index.
pub open spec fn stat_step(path: Seq<char>, stat: Stat) -> FileStepV {
    match stat {
        Stat::NotFound => FileStepV::Respond(text_response(404, "404 Not Found\n"@)),
        Stat::Failed => FileStepV::Respond(text_response(403, "403 Forbidden\n"@)),
        Stat::Dir => FileStepV::StatIndex(joined(path, "index.html"@)),
        Stat::File => FileStepV::Serve(path),
    }
}

pub fn on_stat(path: &str, stat: Stat) -> (r: FileStep)
    ensures
        r@ == stat_step(path@, stat),
{
    match stat {
        Stat::NotFound => FileStep::Respond(text(404, "404 Not Found\n")),
        Stat::Failed => FileStep::Respond(text(403, "403 Forbidden\n")),
        Stat::Dir => FileStep::StatIndex(join_path(path, "index.html")),
        Stat::File => FileStep::Serve(path.to_owned()),
    }
}

/// What follows from a look at the index of a directory: without one the
/// directory is listed, if that is wanted.
pub open spec fn index_step(index: Seq<char>, stat: Stat, autoindex: bool) -> FileStepV {
    match stat {
        Stat::NotFound => if autoindex {
            FileStepV::List
        } else {
            FileStepV::Respond(text_response(404, "404 Not Found\n"@))
        },
        Stat::Failed => FileStepV::Respond(text_response(403, "403 Forbidden\n"@)),
        _ => FileStepV::Serve(index),
    }
}

pub fn on_index_stat(index: &str, stat: Stat, autoindex: bool) -> (r: FileStep)
    ensures
        r@ == index_step(index@, stat, autoindex),
{
    match stat {
        Stat::NotFound => {
            if autoindex {
                FileStep::List
            } else {
                FileStep::Respond(text(404, "404 Not Found\n"))
            }
        },
        Stat::Failed => FileStep::Respond(text(403, "403 Forbidden\n")),
        _ => FileStep::Serve(index.to_owned()),
    }
}

// ---------------------------------------------------------------------------
// One file
// ---------------------------------------------------------------------------

/// What is known of a file before it is read.
#[derive(Debug, Clone, Copy, PartialEq, Eq, Structural)]
pub struct FileMeta {
    pub size: u64,
    /// Last modification in seconds since the Unix epoch, where it is known.
    pub mtime: Option<u64>,
}

/// The weak entity tag of a file: its size and modification time.
pub open spec fn etag_of(m: FileMeta) -> Option<Seq<char>> {
    match m.mtime {
        Some(s) => Some("W/\""@ + hexadecimal(m.size as nat) + "-"@ + hexadecimal(s as nat) + "\""@),
        None => None,
    }
}

fn etag(m: &FileMeta) -> (r: Option<String>)
    ensures
        match r {
            Some(t) => etag_of(*m) == Some(t@),
            None => etag_of(*m) is None,
        },
{
    match m.mtime {
        Some(s) => {
            let mut t = "W/\"".to_owned();
            push_hex(&mut t, m.size);
            t.append("-");
            push_hex(&mut t, s);
            t.append("\"");
            Some(t)
        },
        None => None,
    }
}

/// Whether an `If-None-Match` list names the tag, or any tag.
pub open spec fn matches_tag(list: Seq<char>, tag: Seq<char>) -> bool {
    exists|i: int|
        0 <= i < split_at(list, ',').len() && {
            let t = trimmed(#[trigger] split_at(list, ',')[i]);
            t == tag || t == "*"@
        }
}

fn names_tag(list: &str, tag: &str) -> (r: bool)
    ensures
        r == matches_tag(list@, tag@),
{
    let parts = split(list, ',');
    let ghost all = views(parts@);
    let mut i: usize = 0;
    while i < parts.len()
        invariant
            i <= parts@.len(),
            all == views(parts@),
            all == split_at(list@, ','),
            forall|k: int|
                0 <= k < i ==> trimmed(#[trigger] all[k]) != tag@ && trimmed(all[k]) != "*"@,
        decreases parts@.len() - i,
    {
        assert(all[i as int] == parts@[i as int]@);
        let t = trim(parts[i].as_str());
        if same(t, tag) || same(t, "*") {
            let ghost hit = trimmed(split_at(list@, ',')[i as int]);
            assert(hit == tag@ || hit == "*"@);
            return true;
        }
        i = i + 1;
    }
    false
}

/// The byte range that a `Range` header asks for in a body of `size` bytes:
/// first and last byte, both within the body. `None` when the header is not a
/// single satisfiable byte range.
pub open spec fn range_of(raw: Seq<char>, size: u64) -> Option<(u64, u64)> {
    match after_prefix(raw, "bytes="@) {
        None => None,
        Some(rest) => if rest.contains(',') {
            None
        } else {
            match split_once_at(rest, '-') {
                None => None,
                Some((x, y)) => if size == 0 {
                    None
                } else {
                    range_between(trimmed(x), trimmed(y), size)
                },
            }
        },
    }
}

/// The range between two numbers, either of which may be missing: `N-` runs to
/// the end, `-N` covers the last `N` bytes.
pub open spec fn range_between(a: Seq<char>, b: Seq<char>, size: u64) -> Option<(u64, u64)> {
    if a.len() == 0 {
        match number(b, u64::MAX as nat) {
            Some(n) => if n == 0 {
                None
            } else {
                Some(
                    (
                        if n < size {
                            (size - n) as u64
                        } else {
                            0
                        },
                        (size - 1) as u64,
                    ),
                )
            },
            None => None,
        }
    } else {
        match number(a, u64::MAX as nat) {
            None => None,
            Some(start) => if b.len() == 0 {
                if start >= size {
                    None
                } else {
                    Some((start as u64, (size - 1) as u64))
                }
            } else {
                match number(b, u64::MAX as nat) {
                    None => None,
                    Some(end) => if start > end || start >= size {
                        None
                    } else {
                        Some(
                            (
                                start as u64,
                                if end < size {
                                    end as u64
                                } else {
                                    (size - 1) as u64
                                },
                            ),
                        )
                    },
                }
            },
        }
    }
}

/// Parse a single-range request header (`bytes=start-end`, `bytes=start-`,
/// `bytes=-suffix`). Returns the inclusive `(start, end)` byte indices, or
/// `None` if the spec is invalid or unsatisfiable.
pub fn parse_single_range(raw: &str, size: u64) -> (r: Option<(u64, u64)>)
    ensures
        r == range_of(raw@, size),
        r matches Some((a, b)) ==> a <= b < size,
{
    let rest = match strip_prefix(raw, "bytes=") {
        Some(t) => t,
        None => {
            return None;
        },
    };
    if has_char(rest, ',') {
        // Multi-range — deferred; treated as unsatisfiable.
        return None;
    }
    let (x, y) = match split_once(rest, '-') {
        Some(p) => p,
        None => {
            return None;
        },
    };
    let a = trim(x);
    let b = trim(y);
    if size == 0 {
        return None;
    }
    if a.is_empty() {
        // Suffix range: last N bytes.
        let n: u64 = match parse_number(b, u64::MAX) {
            Some(n) => n,
            None => {
                return None;
            },
        };
        if n == 0 {
            return None;
        }
        let n: u64 = if n < size { n } else { size };
        return Some((size - n, size - 1));
    }
    let start: u64 = match parse_number(a, u64::MAX) {
        Some(n) => n,
        None => {
            return None;
        },
    };
    if b.is_empty() {
        if start >= size {
            return None;
        }
        return Some((start, size - 1));
    }
    let end: u64 = match parse_number(b, u64::MAX) {
        Some(n) => n,
        None => {
            return None;
        },
    };
    if start > end || start >= size {
        return None;
    }
    Some((start, if end < size { end } else { size - 1 }))
}

/// What to read of a file.
#[derive(Debug)]
pub enum FilePlan {
    /// Nothing: this is the answer.
    Respond(Response),
    /// The bytes from the first to the last position, both included.
    Range(u64, u64),
    /// The whole file.
    Full,
}

/// Model of a [`FilePlan`].
pub enum FilePlanV {
    Respond(ResponseV),
    Range(u64, u64),
    Full,
}

impl View for FilePlan {
    type V = FilePlanV;

    open spec fn view(&self) -> FilePlanV {
        match self {
            FilePlan::Respond(r) => FilePlanV::Respond(r@),
            FilePlan::Range(a, b) => FilePlanV::Range(*a, *b),
            FilePlan::Full => FilePlanV::Full,
        }
    }
}

/// The headers that identify a version of a file, on top of `m`.
pub open spec fn with_version(
    h: Map<Seq<char>, Seq<Seq<u8>>>,
    m: FileMeta,
) -> Map<Seq<char>, Seq<Seq<u8>>> {
    match m.mtime {
        Some(s) => with_header(
            with_header(h, "etag"@, encode_utf8(etag_of(m)->0)),
            "last-modified"@,
            encode_utf8(http_date(s as int)),
        ),
        None => h,
    }
}

fn add_version(h: &mut hyper::HeaderMap, m: &FileMeta)
    requires
        has_room(*old(h), 2),
    ensures
        header_map(*final(h)) == with_version(header_map(*old(h)), *m),
        header_names(*final(h)) <= header_names(*old(h)) + 2,
{
    match (etag(m), m.mtime) {
        (Some(t), Some(s)) => {
            set_text(h, "etag", t.as_str());
            set_text(h, "last-modified", crate::http_date::format(s).as_str());
        },
        _ => {},
    }
}

/// The `304` response for a file.
pub open spec fn unmodified(m: FileMeta) -> ResponseV {
    ResponseV { status: 304, headers: with_version(no_headers(), m), body: seq![] }
}

fn not_modified(m: &FileMeta) -> (r: Response)
    ensures
        r@ == unmodified(*m),
        header_names(r.headers) <= 2,
{
    let mut headers = new_headers();
    add_version(&mut headers, m);
    let body: Vec<u8> = Vec::new();
    assert(body@ =~= seq![]);
    Response { status: 304, headers, body }
}

/// The `416` response for a file of `size` bytes.
pub open spec fn unsatisfiable(size: u64) -> ResponseV {
    ResponseV {
        status: 416,
        headers: with_header(
            with_header(
                no_headers(),
                "content-type"@,
                encode_utf8("text/plain; charset=utf-8"@),
            ),
            "content-range"@,
            encode_utf8("bytes */"@ + decimal(size as nat)),
        ),
        body: encode_utf8("416 Range Not Satisfiable\n"@),
    }
}

fn not_satisfiable(size: u64) -> (r: Response)
    ensures
        r@ == unsatisfiable(size),
        header_names(r.headers) <= 2,
{
    let mut headers = new_headers();
    set_text(&mut headers, "content-type", "text/plain; charset=utf-8");
    let mut range = "bytes */".to_owned();
    push_decimal(&mut range, size);
    set_text(&mut headers, "content-range", range.as_str());
    Response { status: 416, headers, body: text_bytes("416 Range Not Satisfiable\n") }
}

/// What to read of a file: nothing when the client has this version already or
/// asks for a range it does not have, part of it for a satisfiable range, and
/// all of it otherwise. A range in another unit is ignored.
pub open spec fn file_plan(m: FileMeta, req: Map<Seq<char>, Seq<Seq<u8>>>) -> FilePlanV {
    if etag_of(m) is Some && (header_text(req, "if-none-match"@) matches Some(v) && matches_tag(
        v,
        etag_of(m)->0,
    )) {
        FilePlanV::Respond(unmodified(m))
    } else {
        match header_text(req, "range"@) {
            None => FilePlanV::Full,
            Some(v) => match range_of(v, m.size) {
                Some((a, b)) => FilePlanV::Range(a, b),
                None => if "bytes="@.is_prefix_of(v) {
                    FilePlanV::Respond(unsatisfiable(m.size))
                } else {
                    FilePlanV::Full
                },
            },
        }
    }
}

/// Decide what to read of a file.
pub fn plan_file(m: &FileMeta, req_headers: &hyper::HeaderMap) -> (r: FilePlan)
    ensures
        r@ == file_plan(*m, header_map(*req_headers)),
        r matches FilePlan::Range(a, b) ==> a <= b < m.size,
{
    if let Some(t) = etag(m) {
        if let Some(v) = get_text(req_headers, "if-none-match") {
            if names_tag(v.as_str(), t.as_str()) {
                return FilePlan::Respond(not_modified(m));
            }
        }
    }
    match get_text(req_headers, "range") {
        None => FilePlan::Full,
        Some(v) => match parse_single_range(v.as_str(), m.size) {
            Some((a, b)) => FilePlan::Range(a, b),
            None => {
                if starts_with(v.as_str(), "bytes=") {
                    FilePlan::Respond(not_satisfiable(m.size))
                } else {
                    FilePlan::Full
                }
            },
        },
    }
}

/// How reading a file went.
#[derive(Debug)]
pub enum FileRead {
    Data(Vec<u8>),
    NotFound,
    Failed,
}

/// Model of a [`FileRead`].
pub enum FileReadV {
    Data(Seq<u8>),
    NotFound,
    Failed,
}

impl View for FileRead {
    type V = FileReadV;

    open spec fn view(&self) -> FileReadV {
        match self {
            FileRead::Data(d) => FileReadV::Data(d@),
            FileRead::NotFound => FileReadV::NotFound,
            FileRead::Failed => FileReadV::Failed,
        }
    }
}

/// The answer to a range request, once the range has been read. A `HEAD`
/// request needs no reading and gets no body.
pub open spec fn range_answer(
    path: Seq<char>,
    m: FileMeta,
    start: u64,
    end: u64,
    head: bool,
    read: FileReadV,
) -> ResponseV {
    if !head && !(read is Data) {
        text_response(500, "500 Internal Server Error\n"@)
    } else {
        let a = with_header(no_headers(), "content-type"@, encode_utf8(mime_of(path)));
        let b = with_header(
            a,
            "content-length"@,
            encode_utf8(decimal((end - start + 1) as nat)),
        );
        let c = with_header(b, "accept-ranges"@, encode_utf8("bytes"@));
        let d = with_header(
            c,
            "content-range"@,
            encode_utf8(
                "bytes "@ + decimal(start as nat) + "-"@ + decimal(end as nat) + "/"@ + decimal(
                    m.size as nat,
                ),
            ),
        );
        ResponseV {
            status: 206,
            headers: with_version(d, m),
            body: if head {
                seq![]
            } else {
                read->Data_0
            },
        }
    }
}

/// Answer a range request.
pub fn range_response(
    path: &str,
    m: &FileMeta,
    start: u64,
    end: u64,
    head: bool,
    read: FileRead,
) -> (r: Response)
    requires
        start <= end < m.size,
    ensures
        r@ == range_answer(path@, *m, start, end, head, read@),
        header_names(r.headers) <= 6,
{
    let body: Vec<u8> = if head {
        Vec::new()
    } else {
        match read {
            FileRead::Data(d) => d,
            _ => {
                return text(500, "500 Internal Server Error\n");
            },
        }
    };
    let mut headers = new_headers();
    set_text(&mut headers, "content-type", mime_for(path));
    let mut len = String::new();
    push_decimal(&mut len, end - start + 1);
    assert(len@ =~= decimal((end - start + 1) as nat));
    set_text(&mut headers, "content-length", len.as_str());
    set_text(&mut headers, "accept-ranges", "bytes");
    let mut range = "bytes ".to_owned();
    push_decimal(&mut range, start);
    range.append("-");
    push_decimal(&mut range, end);
    range.append("/");
    push_decimal(&mut range, m.size);
    set_text(&mut headers, "content-range", range.as_str());
    add_version(&mut headers, m);
    assert(head ==> body@ =~= seq![]);
    Response { status: 206, headers, body }
}

/// The answer to a plain request, once the file has been read. A `HEAD`
/// request needs no reading; it gets the length instead of the body.
pub open spec fn full_answer(path: Seq<char>, m: FileMeta, head: bool, read: FileReadV) -> ResponseV {
    if !head && read is NotFound {
        text_response(404, "404 Not Found\n"@)
    } else if !head && read is Failed {
        text_response(403, "403 Forbidden\n"@)
    } else {
        let a = with_header(no_headers(), "content-type"@, encode_utf8(mime_of(path)));
        let b = with_header(a, "accept-ranges"@, encode_utf8("bytes"@));
        let c = if head {
            with_header(b, "content-length"@, encode_utf8(decimal(m.size as nat)))
        } else {
            b
        };
        ResponseV {
            status: 200,
            headers: with_version(c, m),
            body: if head {
                seq![]
            } else {
                read->Data_0
            },
        }
    }
}

/// Answer a plain request.
pub fn full_response(path: &str, m: &FileMeta, head: bool, read: FileRead) -> (r: Response)
    ensures
        r@ == full_answer(path@, *m, head, read@),
        header_names(r.headers) <= 5,
{
    let body: Vec<u8> = if head {
        Vec::new()
    } else {
        match read {
            FileRead::Data(d) => d,
            FileRead::NotFound => {
                return text(404, "404 Not Found\n");
            },
            FileRead::Failed => {
                return text(403, "403 Forbidden\n");
            },
        }
    };
    let mut headers = new_headers();
    set_text(&mut headers, "content-type", mime_for(path));
    set_text(&mut headers, "accept-ranges", "bytes");
    if head {
        let mut len = String::new();
        push_decimal(&mut len, m.size);
        assert(len@ =~= decimal(m.size as nat));
        set_text(&mut headers, "content-length", len.as_str());
    }
    add_version(&mut headers, m);
    assert(head ==> body@ =~= seq![]);
    Response { status: 200, headers, body }
}

// ---------------------------------------------------------------------------
// Content types
// ---------------------------------------------------------------------------

/// The last component of a path; empty when the path names no file.
pub open spec fn file_name(parts: Seq<Seq<char>>) -> Seq<char>
    decreases parts.len(),
{
    if parts.len() == 0 {
        seq![]
    } else if parts.last().len() == 0 || parts.last() == "."@ {
        file_name(parts.drop_last())
    } else if parts.last() == ".."@ {
        seq![]
    } else {
        parts.last()
    }
}

/// What follows the last dot of a file name, unless the name starts with it.
pub open spec fn extension(name: Seq<char>) -> Seq<char> {
    match rsplit_once_at(name, '.') {
        Some((stem, ext)) => if stem.len() == 0 {
            seq![]
        } else {
            ext
        },
        None => seq![],
    }
}

/// The content type for a file name extension.
pub open spec fn mime_of_ext(e: Seq<char>) -> Seq<char> {
    if e == "html"@ || e == "htm"@ {
        "text/html; charset=utf-8"@
    } else if e == "css"@ {
        "text/css; charset=utf-8"@
    } else if e == "js"@ || e == "mjs"@ {
        "application/javascript; charset=utf-8"@
    } else if e == "json"@ {
        "application/json"@
    } else if e == "txt"@ || e == "text"@ {
        "text/plain; charset=utf-8"@
    } else if e == "xml"@ {
        "application/xml"@
    } else if e == "svg"@ {
        "image/svg+xml"@
    } else if e == "png"@ {
        "image/png"@
    } else if e == "jpg"@ || e == "jpeg"@ {
        "image/jpeg"@
    } else if e == "gif"@ {
        "image/gif"@
    } else if e == "webp"@ {
        "image/webp"@
    } else if e == "ico"@ {
        "image/x-icon"@
    } else if e == "wasm"@ {
        "application/wasm"@
    } else if e == "pdf"@ {
        "application/pdf"@
    } else if e == "woff"@ {
        "font/woff"@
    } else if e == "woff2"@ {
        "font/woff2"@
    } else {
        "application/octet-stream"@
    }
}

pub open spec fn mime_of(path: Seq<char>) -> Seq<char> {
    mime_of_ext(extension(file_name(split_at(path, '/'))))
}

fn mime_for_ext(e: &str) -> (r: &'static str)
    ensures
        r@ == mime_of_ext(e@),
{
    if same(e, "html") || same(e, "htm") {
        "text/html; charset=utf-8"
    } else if same(e, "css") {
        "text/css; charset=utf-8"
    } else if same(e, "js") || same(e, "mjs") {
        "application/javascript; charset=utf-8"
    } else if same(e, "json") {
        "application/json"
    } else if same(e, "txt") || same(e, "text") {
        "text/plain; charset=utf-8"
    } else if same(e, "xml") {
        "application/xml"
    } else if same(e, "svg") {
        "image/svg+xml"
    } else if same(e, "png") {
        "image/png"
    } else if same(e, "jpg") || same(e, "jpeg") {
        "image/jpeg"
    } else if same(e, "gif") {
        "image/gif"
    } else if same(e, "webp") {
        "image/webp"
    } else if same(e, "ico") {
        "image/x-icon"
    } else if same(e, "wasm") {
        "application/wasm"
    } else if same(e, "pdf") {
        "application/pdf"
    } else if same(e, "woff") {
        "font/woff"
    } else if same(e, "woff2") {
        "font/woff2"
    } else {
        "application/octet-stream"
    }
}

pub fn mime_for(path: &str) -> (r: &'static str)
    ensures
        r@ == mime_of(path@),
{
    let parts = split(path, '/');
    let ghost all = views(parts@);
    let mut n: usize = parts.len();
    let mut name = String::new();
    assert(all.take(n as int) == all);
    assert(name@ =~= seq![]);
    while n > 0
        invariant_except_break
            name@ == Seq::<char>::empty(),
            file_name(all.take(n as int)) == file_name(all),
        invariant
            n <= parts@.len(),
            all == views(parts@),
        ensures
            name@ == file_name(all),
        decreases n,
    {
        let ghost now = all.take(n as int);
        assert(now.last() == parts@[n - 1]@);
        assert(now.drop_last() == all.take(n - 1));
        let p = parts[n - 1].as_str();
        if p.is_empty() || same(p, ".") {
            n = n - 1;
            continue ;
        }
        if !same(p, "..") {
            name = p.to_owned();
        }
        break ;
    }
    match rsplit_once(name.as_str(), '.') {
        Some((stem, ext)) => {
            if stem.is_empty() {
                mime_for_ext(String::new().as_str())
            } else {
                mime_for_ext(ext)
            }
        },
        None => mime_for_ext(String::new().as_str()),
    }
}

// ---------------------------------------------------------------------------
// Directory listings
// ---------------------------------------------------------------------------

/// A character in HTML text.
pub open spec fn html_char(c: char) -> Seq<char> {
    if c == '<' {
        "&lt;"@
    } else if c == '>' {
        "&gt;"@
    } else if c == '&' {
        "&amp;"@
    } else if c == '"' {
        "&quot;"@
    } else {
        seq![c]
    }
}

/// A text in HTML.
pub open spec fn html_escaped(s: Seq<char>) -> Seq<char>
    decreases s.len(),
{
    if s.len() == 0 {
        seq![]
    } else {
        html_escaped(s.drop_last()) + html_char(s.last())
    }
}

/// A character in a quoted HTML attribute.
pub open spec fn attr_char(c: char) -> Seq<char> {
    if c == '\'' {
        "&#39;"@
    } else {
        html_char(c)
    }
}

/// A text in a quoted HTML attribute.
pub open spec fn attr_escaped(s: Seq<char>) -> Seq<char>
    decreases s.len(),
{
    if s.len() == 0 {
        seq![]
    } else {
        attr_escaped(s.drop_last()) + attr_char(s.last())
    }
}

fn push_html_char(out: &mut String, c: char)
    ensures
        final(out)@ == old(out)@ + html_char(c),
{
    let ghost start = out@;
    if c == '<' {
        out.append("&lt;");
    } else if c == '>' {
        out.append("&gt;");
    } else if c == '&' {
        out.append("&amp;");
    } else if c == '"' {
        out.append("&quot;");
    } else {
        out.push(c);
        assert(out@ =~= start + seq![c]);
    }
}

fn push_html_escaped(out: &mut String, s: &str)
    ensures
        final(out)@ == old(out)@ + html_escaped(s@),
{
    let ghost start = out@;
    let v = chars(s);
    let mut i: usize = 0;
    assert(v@.take(0) =~= seq![]);
    assert(start + html_escaped(v@.take(0)) =~= start);
    while i < v.len()
        invariant
            i <= v@.len(),
            out@ == start + html_escaped(v@.take(i as int)),
        decreases v@.len() - i,
    {
        push_html_char(out, v[i]);
        i = i + 1;
        assert(v@.take(i as int).drop_last() == v@.take(i - 1));
        assert(v@.take(i as int).last() == v@[i - 1]);
        assert(out@ =~= start + html_escaped(v@.take(i as int)));
    }
    assert(v@.take(i as int) == v@);
}

fn push_attr_escaped(out: &mut String, s: &str)
    ensures
        final(out)@ == old(out)@ + attr_escaped(s@),
{
    let ghost start = out@;
    let v = chars(s);
    let mut i: usize = 0;
    assert(v@.take(0) =~= seq![]);
    assert(start + attr_escaped(v@.take(0)) =~= start);
    while i < v.len()
        invariant
            i <= v@.len(),
            out@ == start + attr_escaped(v@.take(i as int)),
        decreases v@.len() - i,
    {
        if v[i] == '\'' {
            out.append("&#39;");
        } else {
            push_html_char(out, v[i]);
        }
        i = i + 1;
        assert(v@.take(i as int).drop_last() == v@.take(i - 1));
        assert(v@.take(i as int).last() == v@[i - 1]);
        assert(out@ =~= start + attr_escaped(v@.take(i as int)));
    }
    assert(v@.take(i as int) == v@);
}

/// A byte that a URL path segment may hold as it is.
pub open spec fn unreserved(b: u8) -> bool {
    65 <= b <= 90 || 97 <= b <= 122 || 48 <= b <= 57 || b == 45 || b == 95 || b == 46 || b == 126
}

/// An upper-case hexadecimal digit.
pub open spec fn upper_hex(d: int) -> char {
    if d < 10 {
        ((48 + d) as u8) as char
    } else {
        ((55 + d) as u8) as char
    }
}

/// A byte in a URL path segment.
pub open spec fn url_byte(b: u8) -> Seq<char> {
    if unreserved(b) {
        seq![b as char]
    } else {
        seq!['%', upper_hex(b as int / 16), upper_hex(b as int % 16)]
    }
}

/// Bytes in a URL path segment.
pub open spec fn url_bytes(s: Seq<u8>) -> Seq<char>
    decreases s.len(),
{
    if s.len() == 0 {
        seq![]
    } else {
        url_bytes(s.drop_last()) + url_byte(s.last())
    }
}

fn hex_upper(d: u8) -> (c: char)
    requires
        d < 16,
    ensures
        c == upper_hex(d as int),
{
    if d < 10 {
        (48 + d) as char
    } else {
        (55 + d) as char
    }
}

/// Percent-encode bytes that would interfere with URL parsing in a path
/// segment. Conservative: encodes everything outside the unreserved set.
pub fn url_encode_segment(s: &str) -> (r: String)
    ensures
        r@ == url_bytes(encode_utf8(s@)),
{
    let bytes = s.as_bytes();
    let mut out = String::new();
    let mut i: usize = 0;
    assert(bytes@.take(0) =~= seq![]);
    while i < bytes.len()
        invariant
            i <= bytes@.len(),
            out@ == url_bytes(bytes@.take(i as int)),
        decreases bytes@.len() - i,
    {
        let ghost done = out@;
        let b: u8 = bytes[i];
        if (65 <= b && b <= 90) || (97 <= b && b <= 122) || (48 <= b && b <= 57) || b == 45 || b
            == 95 || b == 46 || b == 126 {
            out.push(b as char);
        } else {
            out.push('%');
            out.push(hex_upper(b / 16));
            out.push(hex_upper(b % 16));
        }
        i = i + 1;
        assert(bytes@.take(i as int).drop_last() == bytes@.take(i - 1));
        assert(bytes@.take(i as int).last() == b);
        assert(out@ =~= done + url_byte(b));
    }
    assert(bytes@.take(i as int) == bytes@);
    out
}

/// Lexicographic order of texts by code point.
pub open spec fn text_before(a: Seq<char>, b: Seq<char>) -> bool
    decreases a.len(),
{
    if b.len() == 0 {
        false
    } else if a.len() == 0 {
        true
    } else if a[0] == b[0] {
        text_before(a.skip(1), b.skip(1))
    } else {
        a[0] < b[0]
    }
}

/// The order of a listing: directories first, then by name.
pub open spec fn entry_before(a: (Seq<char>, bool), b: (Seq<char>, bool)) -> bool {
    if a.1 == b.1 {
        text_before(a.0, b.0)
    } else {
        a.1
    }
}

/// `e` put into a sorted list, behind everything that does not come after it.
pub open spec fn inserted(list: Seq<(Seq<char>, bool)>, e: (Seq<char>, bool)) -> Seq<
    (Seq<char>, bool),
>
    decreases list.len(),
{
    if list.len() == 0 {
        seq![e]
    } else if entry_before(e, list.last()) {
        inserted(list.drop_last(), e).push(list.last())
    } else {
        list.push(e)
    }
}

/// The entries of a listing in order. Dotfiles are left out.
pub open spec fn listed(entries: Seq<(Seq<char>, bool)>) -> Seq<(Seq<char>, bool)>
    decreases entries.len(),
{
    if entries.len() == 0 {
        seq![]
    } else {
        let before = listed(entries.drop_last());
        let e = entries.last();
        if e.0.len() > 0 && e.0[0] == '.' {
            before
        } else {
            inserted(before, e)
        }
    }
}

fn name_before(a: &str, b: &str) -> (r: bool)
    ensures
        r == text_before(a@, b@),
{
    let v = chars(a);
    let w = chars(b);
    let mut i: usize = 0;
    assert(v@.skip(0) == a@ && w@.skip(0) == b@);
    while i < v.len() && i < w.len()
        invariant
            v@ == a@,
            w@ == b@,
            i <= v@.len(),
            i <= w@.len(),
            text_before(v@.skip(i as int), w@.skip(i as int)) == text_before(a@, b@),
        decreases v@.len() - i,
    {
        let ghost x = v@.skip(i as int);
        let ghost y = w@.skip(i as int);
        assert(x[0] == v@[i as int] && y[0] == w@[i as int]);
        assert(x.skip(1) == v@.skip(i + 1) && y.skip(1) == w@.skip(i + 1));
        if v[i] != w[i] {
            return v[i] < w[i];
        }
        i = i + 1;
    }
    i < w.len()
}

fn listed_before(a: &(String, bool), b: &(String, bool)) -> (r: bool)
    ensures
        r == entry_before(a@, b@),
{
    if a.1 == b.1 {
        name_before(a.0.as_str(), b.0.as_str())
    } else {
        a.1
    }
}

fn insert_entry(list: &mut Vec<(String, bool)>, e: (String, bool))
    ensures
        views(final(list)@) == inserted(views(old(list)@), e@),
{
    let ghost start = views(list@);
    let mut i: usize = list.len();
    assert(start.take(i as int) == start);
    assert(start.skip(i as int) =~= seq![]);
    assert(inserted(start, e@) + start.skip(i as int) =~= inserted(start, e@));
    while i > 0 && listed_before(&e, &list[i - 1])
        invariant
            i <= list@.len(),
            start == views(list@),
            inserted(start.take(i as int), e@) + start.skip(i as int) == inserted(start, e@),
        decreases i,
    {
        let ghost now = start.take(i as int);
        assert(now.last() == list@[i - 1]@);
        assert(now.drop_last() == start.take(i - 1));
        assert(inserted(now.drop_last(), e@).push(now.last()) + start.skip(i as int) =~= inserted(
            start.take(i - 1),
            e@,
        ) + start.skip(i - 1));
        i = i - 1;
    }
    proof {
        let now = start.take(i as int);
        if i > 0 {
            assert(now.last() == list@[i - 1]@);
        }
        assert(inserted(now, e@) == now.push(e@)) by {
            if i == 0 {
                assert(now.push(e@) =~= seq![e@]);
            }
        }
    }
    list.insert(i, e);
    assert(views(list@) =~= start.take(i as int).push(e@) + start.skip(i as int));
}

/// One line of a listing.
pub open spec fn listing_line(e: (Seq<char>, bool)) -> Seq<char> {
    let slash = if e.1 {
        "/"@
    } else {
        Seq::<char>::empty()
    };
    "<a href=\""@ + attr_escaped(url_bytes(encode_utf8(e.0)) + slash) + "\">"@ + html_escaped(
        e.0 + slash,
    ) + "</a>\n"@
}

pub open spec fn listing_lines(list: Seq<(Seq<char>, bool)>) -> Seq<char>
    decreases list.len(),
{
    if list.len() == 0 {
        seq![]
    } else {
        listing_lines(list.drop_last()) + listing_line(list.last())
    }
}

/// The page that lists a directory.
pub open spec fn listing_page(entries: Seq<(Seq<char>, bool)>, uri_path: Seq<char>) -> Seq<char> {
    "<!doctype html>\n<html>\n<head>\n<meta charset=\"utf-8\">\n<title>Index of "@ + html_escaped(
        uri_path,
    )
        + "</title>\n<style>body{font:14px/1.5 system-ui,sans-serif;padding:1.5rem;max-width:60rem;margin:auto}h1{font-size:1.25rem;margin-bottom:1rem}pre{margin:0}a{text-decoration:none;color:inherit}a:hover{text-decoration:underline}</style>\n</head>\n<body>\n<h1>Index of "@
        + html_escaped(uri_path) + "</h1>\n<pre>"@ + (if uri_path == "/"@ || uri_path.len() == 0 {
        Seq::<char>::empty()
    } else {
        "<a href=\"../\">../</a>\n"@
    }) + listing_lines(listed(entries)) + "</pre>\n</body>\n</html>\n"@
}

/// The response that lists a directory; `None` stands for a directory that
/// could not be read.
pub open spec fn listing_response(
    entries: Option<Seq<(Seq<char>, bool)>>,
    uri_path: Seq<char>,
) -> ResponseV {
    match entries {
        None => text_response(403, "403 Forbidden\n"@),
        Some(list) => ResponseV {
            status: 200,
            headers: with_header(
                no_headers(),
                "content-type"@,
                encode_utf8("text/html; charset=utf-8"@),
            ),
            body: encode_utf8(listing_page(list, uri_path)),
        },
    }
}

fn push_listing_line(out: &mut String, e: &(String, bool))
    ensures
        final(out)@ == old(out)@ + listing_line(e@),
{
    let ghost start = out@;
    let slash = if e.1 { "/" } else { "" };
    proof {
        reveal_strlit("");
        assert(!e.1 ==> slash@ =~= Seq::<char>::empty());
    }
    let href = join(url_encode_segment(e.0.as_str()).as_str(), slash);
    let display = join(e.0.as_str(), slash);
    out.append("<a href=\"");
    push_attr_escaped(out, href.as_str());
    out.append("\">");
    push_html_escaped(out, display.as_str());
    out.append("</a>\n");
    assert(out@ =~= start + listing_line(e@));
}

/// Render an HTML directory listing of `(name, is a directory)` pairs.
/// Dotfiles are skipped. Entries are sorted directories-first, then by name.
pub fn directory_listing(entries: Option<Vec<(String, bool)>>, uri_path: &str) -> (r: Response)
    ensures
        r@ == listing_response(
            match entries {
                Some(v) => Some(views(v@)),
                None => None,
            },
            uri_path@,
        ),
        header_names(r.headers) <= 1,
{
    let entries = match entries {
        Some(v) => v,
        None => {
            return text(403, "403 Forbidden\n");
        },
    };
    let ghost all = views(entries@);
    let mut list: Vec<(String, bool)> = Vec::new();
    let mut i: usize = 0;
    assert(all.take(0) =~= seq![]);
    assert(views(list@) =~= seq![]);
    while i < entries.len()
        invariant
            i <= entries@.len(),
            all == views(entries@),
            views(list@) == listed(all.take(i as int)),
        decreases entries@.len() - i,
    {
        let v = chars(entries[i].0.as_str());
        let dot = v.len() > 0 && v[0] == '.';
        if !dot {
            let item = (entries[i].0.clone(), entries[i].1);
            assert(item@ == entries@[i as int]@);
            insert_entry(&mut list, item);
        }
        i = i + 1;
        assert(all.take(i as int).drop_last() == all.take(i - 1));
        assert(all.take(i as int).last() == entries@[i - 1]@);
    }
    assert(all.take(i as int) == all);
    let ghost shown = views(list@);
    let mut lines = String::new();
    let mut k: usize = 0;
    assert(shown.take(0) =~= seq![]);
    while k < list.len()
        invariant
            k <= list@.len(),
            shown == views(list@),
            lines@ == listing_lines(shown.take(k as int)),
        decreases list@.len() - k,
    {
        push_listing_line(&mut lines, &list[k]);
        k = k + 1;
        assert(shown.take(k as int).drop_last() == shown.take(k - 1));
        assert(shown.take(k as int).last() == list@[k - 1]@);
    }
    assert(shown.take(k as int) == shown);
    let mut html =
        "<!doctype html>\n<html>\n<head>\n<meta charset=\"utf-8\">\n<title>Index of ".to_owned();
    push_html_escaped(&mut html, uri_path);
    html.append(
        "</title>\n<style>body{font:14px/1.5 system-ui,sans-serif;padding:1.5rem;max-width:60rem;margin:auto}h1{font-size:1.25rem;margin-bottom:1rem}pre{margin:0}a{text-decoration:none;color:inherit}a:hover{text-decoration:underline}</style>\n</head>\n<body>\n<h1>Index of ",
    );
    push_html_escaped(&mut html, uri_path);
    html.append("</h1>\n<pre>");
    if same(uri_path, "/") || uri_path.is_empty() {
        assert(html@ + Seq::<char>::empty() =~= html@);
    } else {
        html.append("<a href=\"../\">../</a>\n");
    }
    html.append(lines.as_str());
    html.append("</pre>\n</body>\n</html>\n");
    let mut headers = new_headers();
    set_text(&mut headers, "content-type", "text/html; charset=utf-8");
    Response { status: 200, headers, body: text_bytes(html.as_str()) }
}

// ---------------------------------------------------------------------------
// try_files
// ---------------------------------------------------------------------------

/// What `try_files` needs next.
#[derive(Debug)]
pub enum TryStep {
    /// Nothing: this is the answer.
    Respond(Response),
    /// Look whether `candidate` is a file, and go on with [`serve_candidate`].
    Probe { index: usize, candidate: String, path: String },
}

/// Model of a [`TryStep`].
pub enum TryStepV {
    Respond(ResponseV),
    Probe { index: int, candidate: Seq<char>, path: Seq<char> },
}

impl View for TryStep {
    type V = TryStepV;

    open spec fn view(&self) -> TryStepV {
        match self {
            TryStep::Respond(r) => TryStepV::Respond(r@),
            TryStep::Probe { index, candidate, path } => TryStepV::Probe {
                index: *index as int,
                candidate: candidate@,
                path: path@,
            },
        }
    }
}

/// The next thing to do from entry `i` on. A status only counts as the last
/// entry; a candidate that leads upwards is skipped, or refused when it is the
/// last.
pub open spec fn try_from(
    root: Seq<char>,
    entries: Seq<TryFilesEntryRtV>,
    i: int,
    ctx: RequestCtx<'_>,
) -> TryStepV
    decreases entries.len() - i,
{
    if entries.len() == 0 {
        TryStepV::Respond(text_response(500, "500 Internal Server Error\n"@))
    } else if i >= entries.len() || i < 0 {
        TryStepV::Respond(text_response(404, "404 Not Found\n"@))
    } else {
        let last = i == entries.len() - 1;
        match entries[i] {
            TryFilesEntryRtV::Status(code) => if last {
                TryStepV::Respond(text_response(code, decimal(code as nat) + " \n"@))
            } else {
                try_from(root, entries, i + 1, ctx)
            },
            TryFilesEntryRtV::Path(t) => {
                let path = rendered(t, ctx);
                let rel = without_leading(path, '/');
                if safe(rel) {
                    TryStepV::Probe { index: i, candidate: joined(root, rel), path }
                } else if last {
                    TryStepV::Respond(text_response(403, "403 Forbidden\n"@))
                } else {
                    try_from(root, entries, i + 1, ctx)
                }
            },
        }
    }
}

/// Resolve a `try_files` location from entry `from` on. Each non-final entry
/// is treated as a path-existence check rooted at `root`; the first one that
/// exists is served. The final entry is always honored — either as a path
/// (served regardless) or as a `=NNN` status code.
pub fn try_files(
    root: &str,
    entries: &Vec<TryFilesEntryRt>,
    from: usize,
    ctx: &RequestCtx<'_>,
) -> (r: TryStep)
    requires
        forall|i: int|
            0 <= i < entries@.len() ==> ((#[trigger] entries@[i]) matches TryFilesEntryRt::Status(c)
                ==> valid_status(c)),
    ensures
        r@ == try_from(root@, views(entries@), from as int, *ctx),
{
    let ghost all = views(entries@);
    if entries.len() == 0 {
        return TryStep::Respond(text(500, "500 Internal Server Error\n"));
    }
    let n: usize = entries.len();
    let mut i: usize = from;
    while i < n
        invariant
            0 < n == entries@.len(),
            all == views(entries@),
            forall|k: int|
                0 <= k < entries@.len() ==> ((#[trigger] entries@[k]) matches TryFilesEntryRt::Status(
                    c,
                ) ==> valid_status(c)),
            try_from(root@, all, i as int, *ctx) == try_from(root@, all, from as int, *ctx),
        decreases n - i,
    {
        assert(all[i as int] == entries@[i as int]@);
        match &entries[i] {
            TryFilesEntryRt::Status(code) => {
                if i == n - 1 {
                    let mut body = String::new();
                    push_decimal(&mut body, *code as u64);
                    body.append(" \n");
                    assert(body@ =~= decimal(*code as nat) + " \n"@);
                    return TryStep::Respond(text(*code, body.as_str()));
                }
            },
            TryFilesEntryRt::Path(t) => {
                let path = t.render(ctx);
                let rel = trim_start_char(path.as_str(), '/');
                if components_safe(rel) {
                    let candidate = join_path(root, rel);
                    return TryStep::Probe { index: i, candidate, path };
                }
                if i == n - 1 {
                    return TryStep::Respond(text(403, "403 Forbidden\n"));
                }
            },
        }
        i = i + 1;
    }
    TryStep::Respond(text(404, "404 Not Found\n"))
}

/// Whether the candidate of entry `index` is served: when it is a file, or
/// when nothing is left to try.
pub fn serve_candidate(entries: &Vec<TryFilesEntryRt>, index: usize, is_file: bool) -> (r: bool)
    requires
        index < entries@.len(),
    ensures
        r == (is_file || index == entries@.len() - 1),
{
    is_file || index == entries.len() - 1
}

// ---------------------------------------------------------------------------
// Laws
// ---------------------------------------------------------------------------

/// Whatever path is looked at lies below the root: what is appended to the
/// root has no component that leads upwards.
pub proof fn law_no_path_leads_upwards(root: Seq<char>, kind: StaticKindV, req_path: Seq<char>)
    ensures
        first_step(root, kind, req_path) matches FileStepV::Stat(p) ==> exists|rel: Seq<char>|
            p == #[trigger] joined(root, rel) && safe(rel) && (rel.len() == 0 || rel[0] != '/'),
        !safe(relative(kind, req_path)) ==> first_step(root, kind, req_path) is Respond,
{
    let rel = relative(kind, req_path);
    lemma_no_leading(req_path, '/');
    if let StaticKindV::Alias { prefix } = kind {
        if let Some(rest) = after_prefix(req_path, prefix) {
            lemma_no_leading(rest, '/');
        }
    }
    assert(joined(root, rel) == joined(root, rel));
}

proof fn lemma_no_leading(s: Seq<char>, c: char)
    ensures
        without_leading(s, c).len() == 0 || without_leading(s, c)[0] != c,
    decreases s.len(),
{
    if s.len() > 0 && s[0] == c {
        lemma_no_leading(s.skip(1), c);
    }
}

/// A candidate of `try_files` that is looked at lies below the root too.
pub proof fn law_candidates_stay_below_root(
    root: Seq<char>,
    entries: Seq<TryFilesEntryRtV>,
    i: int,
    ctx: RequestCtx<'_>,
)
    ensures
        try_from(root, entries, i, ctx) matches TryStepV::Probe { index, candidate, path } ==> {
            &&& i <= index < entries.len()
            &&& safe(without_leading(path, '/'))
            &&& candidate == joined(root, without_leading(path, '/'))
        },
    decreases entries.len() - i,
{
    if 0 <= i < entries.len() {
        law_candidates_stay_below_root(root, entries, i + 1, ctx);
    }
}

/// A satisfiable range lies within the body.
pub proof fn law_range_within_body(raw: Seq<char>, size: u64)
    ensures
        range_of(raw, size) matches Some((a, b)) ==> a <= b < size,
{
}

/// A tag is plain text without a comma, and nothing is trimmed off it.
proof fn lemma_tag(m: FileMeta)
    requires
        m.mtime is Some,
    ensures
        is_plain(etag_of(m)->0),
        !etag_of(m)->0.contains(','),
        trimmed(etag_of(m)->0) == etag_of(m)->0,
{
    reveal_strlit("W/\"");
    reveal_strlit("-");
    reveal_strlit("\"");
    let x = hexadecimal(m.size as nat);
    let y = hexadecimal(m.mtime->0 as nat);
    lemma_hexadecimal_digits(m.size as nat);
    lemma_hexadecimal_digits(m.mtime->0 as nat);
    let t = etag_of(m)->0;
    assert forall|i: int| 0 <= i < t.len() implies is_plain_char(#[trigger] t[i]) && t[i]
        != ',' by {
        if 3 <= i < 3 + x.len() {
            assert(t[i] == x[i - 3]);
        } else if 4 + x.len() <= i < t.len() - 1 {
            assert(t[i] == y[i - 4 - x.len()]);
        }
    }
    assert(t[0] == 'W');
    assert(t.last() == '"');
    assert(!is_space('W') && !is_space('"'));
}

proof fn lemma_header_names()
    ensures
        is_header_name("etag"@),
        is_header_name("last-modified"@),
        lower("etag"@) == "etag"@,
        lower("last-modified"@) == "last-modified"@,
        "etag"@ != "last-modified"@,
{
    reveal_strlit("etag");
    reveal_strlit("last-modified");
    assert(lower("etag"@) =~= "etag"@);
    assert(lower("last-modified"@) =~= "last-modified"@);
    assert("etag"@.len() != "last-modified"@.len());
}

/// Whether headers tell the version of a file: its tag and its date.
pub open spec fn tells_version(h: Map<Seq<char>, Seq<Seq<u8>>>, m: FileMeta) -> bool {
    &&& header_text(h, "etag"@) == etag_of(m)
    &&& header_text(h, "last-modified"@) == Some(http_date(m.mtime->0 as int))
}

proof fn lemma_version_is_told(h: Map<Seq<char>, Seq<Seq<u8>>>, m: FileMeta)
    requires
        m.mtime is Some,
    ensures
        tells_version(with_version(h, m), m),
{
    lemma_tag(m);
    lemma_plain_value(etag_of(m)->0);
    lemma_date_is_plain(m.mtime->0 as int);
    lemma_plain_value(http_date(m.mtime->0 as int));
    lemma_header_names();
}

/// Every `200`, `206` and `304` for a file whose modification time is known
/// carries its tag and its date.
pub proof fn law_every_answer_tells_the_version(
    path: Seq<char>,
    m: FileMeta,
    start: u64,
    end: u64,
    head: bool,
    read: FileReadV,
)
    requires
        m.mtime is Some,
    ensures
        tells_version(unmodified(m).headers, m),
        range_answer(path, m, start, end, head, read).status == 206 ==> tells_version(
            range_answer(path, m, start, end, head, read).headers,
            m,
        ),
        full_answer(path, m, head, read).status == 200 ==> tells_version(
            full_answer(path, m, head, read).headers,
            m,
        ),
{
    lemma_version_is_told(no_headers(), m);
    let a = with_header(no_headers(), "content-type"@, encode_utf8(mime_of(path)));
    let b = with_header(a, "content-length"@, encode_utf8(decimal((end - start + 1) as nat)));
    let c = with_header(b, "accept-ranges"@, encode_utf8("bytes"@));
    let d = with_header(
        c,
        "content-range"@,
        encode_utf8(
            "bytes "@ + decimal(start as nat) + "-"@ + decimal(end as nat) + "/"@ + decimal(
                m.size as nat,
            ),
        ),
    );
    lemma_version_is_told(d, m);
    let e = with_header(a, "accept-ranges"@, encode_utf8("bytes"@));
    lemma_version_is_told(e, m);
    lemma_version_is_told(
        with_header(e, "content-length"@, encode_utf8(decimal(m.size as nat))),
        m,
    );
}

/// The same version of a file that the client has is never sent again: the tag
/// that came with it, sent back in `If-None-Match`, gives a `304` without a body.
pub proof fn law_revalidation_sends_no_body(
    m: FileMeta,
    sent: Map<Seq<char>, Seq<Seq<u8>>>,
    req: Map<Seq<char>, Seq<Seq<u8>>>,
)
    requires
        m.mtime is Some,
        tells_version(sent, m),
        header_value(req, "if-none-match"@) == header_value(sent, "etag"@),
    ensures
        file_plan(m, req) == FilePlanV::Respond(unmodified(m)),
        unmodified(m).status == 304,
        unmodified(m).body.len() == 0,
{
    let t = etag_of(m)->0;
    lemma_tag(m);
    lemma_position_is(t, ',');
    assert(split_at(t, ',') =~= seq![t]);
    let hit = trimmed(split_at(t, ',')[0]);
    assert(hit == t);
    assert(matches_tag(t, t));
}

/// Escaped text cannot open a tag or close a quoted attribute.
pub proof fn law_escaped_text_is_inert(s: Seq<char>)
    ensures
        !html_escaped(s).contains('<'),
        !html_escaped(s).contains('>'),
        !html_escaped(s).contains('"'),
        !attr_escaped(s).contains('<'),
        !attr_escaped(s).contains('>'),
        !attr_escaped(s).contains('"'),
        !attr_escaped(s).contains('\''),
    decreases s.len(),
{
    if s.len() > 0 {
        law_escaped_text_is_inert(s.drop_last());
        let c = s.last();
        reveal_strlit("&lt;");
        reveal_strlit("&gt;");
        reveal_strlit("&amp;");
        reveal_strlit("&quot;");
        reveal_strlit("&#39;");
        let h = html_escaped(s.drop_last());
        let a = attr_escaped(s.drop_last());
        assert forall|i: int| 0 <= i < html_escaped(s).len() implies html_escaped(s)[i] != '<'
            && html_escaped(s)[i] != '>' && html_escaped(s)[i] != '"' by {
            if i < h.len() {
                assert(html_escaped(s)[i] == h[i]);
                assert(h.contains(h[i]));
            } else {
                assert(html_escaped(s)[i] == html_char(c)[i - h.len()]);
            }
        }
        assert forall|i: int| 0 <= i < attr_escaped(s).len() implies attr_escaped(s)[i] != '<'
            && attr_escaped(s)[i] != '>' && attr_escaped(s)[i] != '"' && attr_escaped(s)[i]
            != '\'' by {
            if i < a.len() {
                assert(attr_escaped(s)[i] == a[i]);
                assert(a.contains(a[i]));
            } else {
                assert(attr_escaped(s)[i] == attr_char(c)[i - a.len()]);
            }
        }
    }
}

proof fn lemma_not_before_itself(a: Seq<char>)
    ensures
        !text_before(a, a),
    decreases a.len(),
{
    if a.len() > 0 {
        lemma_not_before_itself(a.skip(1));
    }
}

/// The order of a listing is total, irreflexive and transitive on texts.
proof fn lemma_text_order(a: Seq<char>, b: Seq<char>, c: Seq<char>)
    ensures
        !text_before(a, a),
        text_before(a, b) && text_before(b, c) ==> text_before(a, c),
        text_before(a, b) || text_before(b, a) || a == b,
        !(text_before(a, b) && text_before(b, a)),
    decreases a.len() + b.len() + c.len(),
{
    lemma_not_before_itself(a);
    if a.len() > 0 && b.len() > 0 {
        if c.len() > 0 {
            lemma_text_order(a.skip(1), b.skip(1), c.skip(1));
        } else {
            lemma_text_order(a.skip(1), b.skip(1), c);
        }
        if a[0] == b[0] && a.skip(1) == b.skip(1) {
            assert(a =~= seq![a[0]] + a.skip(1));
            assert(b =~= seq![b[0]] + b.skip(1));
        }
    } else if a.len() == 0 && b.len() == 0 {
        assert(a =~= b);
    }
}

/// A list in which nothing comes before its predecessor.
pub open spec fn in_order(list: Seq<(Seq<char>, bool)>) -> bool {
    forall|i: int, j: int|
        0 <= i < j < list.len() ==> !entry_before(#[trigger] list[j], #[trigger] list[i])
}

proof fn lemma_entry_order(a: (Seq<char>, bool), b: (Seq<char>, bool), c: (Seq<char>, bool))
    ensures
        entry_before(a, b) && !entry_before(c, b) ==> !entry_before(c, a),
        entry_before(a, b) ==> !entry_before(b, a),
{
    lemma_text_order(a.0, b.0, c.0);
    lemma_text_order(c.0, a.0, b.0);
    lemma_text_order(b.0, c.0, a.0);
}

proof fn lemma_inserted(list: Seq<(Seq<char>, bool)>, e: (Seq<char>, bool))
    requires
        in_order(list),
    ensures
        in_order(inserted(list, e)),
        inserted(list, e).to_multiset() == list.to_multiset().insert(e),
        forall|i: int|
            0 <= i < inserted(list, e).len() ==> (#[trigger] inserted(list, e)[i]) == e
                || list.contains(inserted(list, e)[i]),
    decreases list.len(),
{
    broadcast use vstd::seq_lib::group_to_multiset_ensures;

    if list.len() == 0 {
        assert(seq![e] =~= list.push(e));
    } else if entry_before(e, list.last()) {
        let head = list.drop_last();
        let last = list.last();
        lemma_inserted(head, e);
        let front = inserted(head, e);
        let out = front.push(last);
        assert(list =~= head.push(last));
        assert forall|i: int, j: int| 0 <= i < j < out.len() implies !entry_before(
            #[trigger] out[j],
            #[trigger] out[i],
        ) by {
            if j == out.len() - 1 {
                lemma_entry_order(e, last, out[i]);
                if out[i] != e {
                    assert(front[i] == out[i]);
                    assert(head.contains(front[i]));
                    let k = choose|k: int| 0 <= k < head.len() && head[k] == front[i];
                    assert(list[k] == front[i]);
                }
            } else {
                assert(out[i] == front[i] && out[j] == front[j]);
            }
        }
        assert forall|i: int| 0 <= i < out.len() implies (#[trigger] out[i]) == e || list.contains(
            out[i],
        ) by {
            if i < front.len() {
                assert(out[i] == front[i]);
                if front[i] != e {
                    let k = choose|k: int| 0 <= k < head.len() && head[k] == front[i];
                    assert(list[k] == front[i]);
                }
            } else {
                assert(list[list.len() - 1] == last);
            }
        }
        assert(out.to_multiset() =~= list.to_multiset().insert(e));
    } else {
        let out = list.push(e);
        assert forall|i: int, j: int| 0 <= i < j < out.len() implies !entry_before(
            #[trigger] out[j],
            #[trigger] out[i],
        ) by {
            if j == out.len() - 1 {
                lemma_entry_order(e, list[i], list.last());
                if i < list.len() - 1 {
                    assert(!entry_before(list[list.len() - 1], list[i]));
                }
                if entry_before(e, list[i]) {
                    lemma_entry_order(e, list[i], list.last());
                    lemma_after(e, list[i], list.last());
                }
            } else {
                assert(out[i] == list[i] && out[j] == list[j]);
            }
        }
        assert forall|i: int| 0 <= i < out.len() implies (#[trigger] out[i]) == e || list.contains(
            out[i],
        ) by {
            if i < list.len() {
                assert(list[i] == out[i]);
            }
        }
    }
}

/// What comes before `b` comes before everything that `b` does not follow.
proof fn lemma_after(a: (Seq<char>, bool), b: (Seq<char>, bool), c: (Seq<char>, bool))
    requires
        entry_before(a, b),
        !entry_before(c, b),
    ensures
        entry_before(a, c),
{
    lemma_text_order(a.0, b.0, c.0);
    lemma_text_order(b.0, c.0, a.0);
    lemma_text_order(c.0, b.0, a.0);
    lemma_text_order(a.0, c.0, b.0);
}

/// Whether an entry shows up in a listing.
pub open spec fn is_listed(e: (Seq<char>, bool)) -> bool {
    !(e.0.len() > 0 && e.0[0] == '.')
}

/// A listing holds exactly the entries that are not dotfiles, in order:
/// directories first, then by name.
pub proof fn law_listing_is_sorted(entries: Seq<(Seq<char>, bool)>)
    ensures
        in_order(listed(entries)),
        listed(entries).to_multiset() == entries.filter(
            |e: (Seq<char>, bool)| is_listed(e),
        ).to_multiset(),
    decreases entries.len(),
{
    broadcast use vstd::seq_lib::group_to_multiset_ensures;

    let f = |e: (Seq<char>, bool)| is_listed(e);
    reveal(Seq::filter);
    if entries.len() > 0 {
        law_listing_is_sorted(entries.drop_last());
        let before = listed(entries.drop_last());
        let e = entries.last();
        if is_listed(e) {
            lemma_inserted(before, e);
            assert(entries.filter(f) =~= entries.drop_last().filter(f).push(e));
        } else {
            assert(entries.filter(f) =~= entries.drop_last().filter(f));
        }
    } else {
        assert(entries.filter(f) =~= seq![]);
    }
}

proof fn lemma_url_front(s: Seq<u8>)
    requires
        s.len() > 0,
    ensures
        url_bytes(s) == url_byte(s[0]) + url_bytes(s.skip(1)),
    decreases s.len(),
{
    if s.len() == 1 {
        assert(s.drop_last() =~= seq![]);
        assert(s.skip(1) =~= seq![]);
        assert(url_bytes(Seq::<u8>::empty()) =~= Seq::<char>::empty());
        assert(url_bytes(s) =~= url_byte(s[0]) + url_bytes(s.skip(1)));
    } else {
        lemma_url_front(s.drop_last());
        assert(s.drop_last().skip(1) =~= s.skip(1).drop_last());
        assert(s.skip(1).last() == s.last());
        assert(url_bytes(s) =~= url_byte(s[0]) + url_bytes(s.skip(1)));
    }
}

spec fn raw(s: Seq<char>) -> Seq<u8> {
    s.map_values(|c: char| c as u8)
}

proof fn lemma_url_decodes(s: Seq<u8>)
    ensures
        is_ascii_chars(url_bytes(s)),
        unescaped(raw(url_bytes(s))) == s,
    decreases s.len(),
{
    let t = url_bytes(s);
    if s.len() == 0 {
        assert(raw(t) =~= seq![]);
    } else {
        let b = s[0];
        let rest = s.skip(1);
        let more = url_bytes(rest);
        lemma_url_front(s);
        lemma_url_decodes(rest);
        assert forall|i: int| 0 <= i < t.len() implies '\0' <= #[trigger] t[i] <= '\u{7f}' by {
            if i >= url_byte(b).len() {
                assert(t[i] == more[i - url_byte(b).len()]);
            }
        }
        let r = raw(t);
        if unreserved(b) {
            assert(r[0] == b);
            assert(r.skip(1) =~= raw(more));
        } else {
            let (h, l) = (b as int / 16, b as int % 16);
            assert(r[0] == 37);
            assert(hex_of(r[1]) == Some(h as u8));
            assert(hex_of(r[2]) == Some(l as u8));
            assert(r.skip(3) =~= raw(more));
        }
        assert(seq![b] + rest =~= s);
    }
}

/// What is encoded for a link is decoded to what it was: any text, whatever
/// characters are in it.
pub proof fn law_encoded_segment_decodes(s: Seq<char>)
    ensures
        form_decoded(url_bytes(encode_utf8(s))) == s,
{
    let b = encode_utf8(s);
    let t = url_bytes(b);
    lemma_url_decodes(b);
    is_ascii_chars_encode_utf8(t);
    assert(encode_utf8(t) =~= raw(t));
    encode_utf8_valid_utf8(s);
    encode_utf8_decode_utf8(s);
}

} // verus!
